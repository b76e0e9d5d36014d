//! Runtime escaping routines, the only code of the engine that the
//! rendered application runs: HTML, JavaScript and URL escaping, each
//! appending to the caller's output buffer.

use vstd::prelude::*;
use crate::text::push_char;
use vstd::string::StringSliceAdditionalSpecFns;

verus! {

/// What HTML escaping writes for one character.
pub open spec fn html_escape_char(c: char) -> Seq<char> {
    if c == '&' {
        "&amp;"@
    } else if c == '<' {
        "&lt;"@
    } else if c == '>' {
        "&gt;"@
    } else if c == '"' {
        "&quot;"@
    } else if c == '\'' {
        "&#39;"@
    } else {
        seq![c]
    }
}

/// HTML escaping of `s`: `&`, `<`, `>`, `"` and `'` become entities, every
/// other character is kept.
pub open spec fn escape_html(s: Seq<char>) -> Seq<char>
    decreases s.len(),
{
    if s.len() == 0 {
        Seq::empty()
    } else {
        escape_html(s.drop_last()) + html_escape_char(s.last())
    }
}

/// What JavaScript escaping writes for one character.
pub open spec fn js_escape_char(c: char) -> Seq<char> {
    if c == '\\' {
        "\\\\"@
    } else if c == '"' {
        "\\\""@
    } else if c == '\'' {
        "\\'"@
    } else if c == '`' {
        "\\`"@
    } else if c == '\n' {
        "\\n"@
    } else if c == '\r' {
        "\\r"@
    } else if c == '\t' {
        "\\t"@
    } else if c == '<' {
        "\\x3C"@
    } else if c == '>' {
        "\\x3E"@
    } else if c == '&' {
        "\\x26"@
    } else if c == '$' {
        "\\x24"@
    } else {
        seq![c]
    }
}

/// JavaScript escaping of `s`.
pub open spec fn escape_js(s: Seq<char>) -> Seq<char>
    decreases s.len(),
{
    if s.len() == 0 {
        Seq::empty()
    } else {
        escape_js(s.drop_last()) + js_escape_char(s.last())
    }
}

/// The bytes that URL encoding keeps: ASCII letters and digits, `-`, `_`,
/// `.` and `~`.
pub open spec fn is_unreserved(b: u8) -> bool {
    ||| 0x41 <= b <= 0x5A
    ||| 0x61 <= b <= 0x7A
    ||| 0x30 <= b <= 0x39
    ||| b == 0x2D
    ||| b == 0x5F
    ||| b == 0x2E
    ||| b == 0x7E
}

/// Upper-case hexadecimal digit of `n < 16`.
pub open spec fn hex_digit(n: nat) -> char {
    if n < 10 {
        (('0' as u32) + n) as char
    } else {
        (('A' as u32) + (n - 10)) as char
    }
}

/// What URL encoding writes for one byte: the byte itself when unreserved,
/// else `%` and its two upper-case hexadecimal digits.
pub open spec fn url_escape_byte(b: u8) -> Seq<char> {
    if is_unreserved(b) {
        seq![b as char]
    } else {
        seq!['%', hex_digit((b / 16) as nat), hex_digit((b % 16) as nat)]
    }
}

/// URL encoding of the bytes `bs`.
pub open spec fn escape_url(bs: Seq<u8>) -> Seq<char>
    decreases bs.len(),
{
    if bs.len() == 0 {
        Seq::empty()
    } else {
        escape_url(bs.drop_last()) + url_escape_byte(bs.last())
    }
}

/// Appends `value` to `output` with the HTML entities of `&`, `<`, `>`,
/// `"` and `'` in place of those characters, to prevent XSS. Earlier
/// content of `output` is kept.
pub fn write_escaped(output: &mut String, value: &str)
    ensures
        final(output)@ == old(output)@ + escape_html(value@),
{
    let ghost start = output@;
    assert(start + escape_html(Seq::<char>::empty()) =~= start);
    for c in it: value.chars()
        invariant
            it.seq() == value@,
            output@ == start + escape_html(it.seq().take(it.index() as int)),
    {
        let ghost before = output@;
        if c == '&' {
            output.append("&amp;");
        } else if c == '<' {
            output.append("&lt;");
        } else if c == '>' {
            output.append("&gt;");
        } else if c == '"' {
            output.append("&quot;");
        } else if c == '\'' {
            output.append("&#39;");
        } else {
            push_char(output, c);
            assert(before.push(c) =~= before + seq![c]);
        }
        let ghost k = it.index() as int;
        assert(value@.take(k + 1).drop_last() =~= value@.take(k));
        assert(output@ =~= start + escape_html(value@.take(k + 1)));
    }
    assert(value@.take(value@.len() as int) =~= value@);
}

/// Appends `value` to `output` escaped for a JavaScript string or template
/// literal: backslash, quotes, backtick, line endings and tab become
/// backslash escapes, `<`, `>`, `&` and `$` become `\x3C`, `\x3E`, `\x26`
/// and `\x24`, so that the value can neither close a `<script>` element
/// nor open an interpolation (`${`) in a template literal.
pub fn write_escaped_js(output: &mut String, value: &str)
    ensures
        final(output)@ == old(output)@ + escape_js(value@),
{
    let ghost start = output@;
    assert(start + escape_js(Seq::<char>::empty()) =~= start);
    for c in it: value.chars()
        invariant
            it.seq() == value@,
            output@ == start + escape_js(it.seq().take(it.index() as int)),
    {
        let ghost before = output@;
        if c == '\\' {
            output.append("\\\\");
        } else if c == '"' {
            output.append("\\\"");
        } else if c == '\'' {
            output.append("\\'");
        } else if c == '`' {
            output.append("\\`");
        } else if c == '\n' {
            output.append("\\n");
        } else if c == '\r' {
            output.append("\\r");
        } else if c == '\t' {
            output.append("\\t");
        } else if c == '<' {
            output.append("\\x3C");
        } else if c == '>' {
            output.append("\\x3E");
        } else if c == '&' {
            output.append("\\x26");
        } else if c == '$' {
            output.append("\\x24");
        } else {
            push_char(output, c);
            assert(before.push(c) =~= before + seq![c]);
        }
        let ghost k = it.index() as int;
        assert(value@.take(k + 1).drop_last() =~= value@.take(k));
        assert(output@ =~= start + escape_js(value@.take(k + 1)));
    }
    assert(value@.take(value@.len() as int) =~= value@);
}

fn hex_char(n: u8) -> (c: char)
    requires
        n < 16,
    ensures
        c == hex_digit(n as nat),
{
    if n < 10 {
        (0x30 + n) as char
    } else {
        (0x41 + (n - 10)) as char
    }
}

/// Appends `value` to `output` URL-encoded: every byte of its UTF-8
/// encoding other than ASCII letters, digits, `-`, `_`, `.` and `~`
/// becomes `%XX` in upper-case hexadecimal.
pub fn write_escaped_url(output: &mut String, value: &str)
    ensures
        final(output)@ == old(output)@ + escape_url(value.spec_bytes()),
{
    let bytes = value.as_bytes();
    let ghost start = output@;
    let mut i: usize = 0;
    assert(bytes@.take(0) =~= Seq::<u8>::empty());
    assert(start + escape_url(Seq::<u8>::empty()) =~= start);
    while i < bytes.len()
        invariant
            bytes@ == value.spec_bytes(),
            i <= bytes@.len(),
            output@ == start + escape_url(bytes@.take(i as int)),
        decreases bytes@.len() - i,
    {
        let b = bytes[i];
        let ghost before = output@;
        if (0x41 <= b && b <= 0x5A) || (0x61 <= b && b <= 0x7A) || (0x30 <= b && b <= 0x39) || b
            == 0x2D || b == 0x5F || b == 0x2E || b == 0x7E {
            push_char(output, b as char);
            assert(before.push(b as char) =~= before + url_escape_byte(b));
        } else {
            push_char(output, '%');
            push_char(output, hex_char(b / 16));
            push_char(output, hex_char(b % 16));
            assert(before.push('%').push(hex_digit((b / 16) as nat)).push(
                hex_digit((b % 16) as nat),
            ) =~= before + url_escape_byte(b));
        }
        assert(bytes@.take(i + 1).drop_last() =~= bytes@.take(i as int));
        assert(output@ =~= start + escape_url(bytes@.take(i + 1)));
        i += 1;
    }
    assert(bytes@.take(bytes@.len() as int) =~= bytes@);
}


/// A character that HTML escaping never lets through.
pub open spec fn html_special(c: char) -> bool {
    c == '<' || c == '>' || c == '"' || c == '\''
}

/// HTML escaping leaves no `<`, `>`, `"` nor `'` in its output.
pub proof fn law_escape_html_removes_specials(s: Seq<char>)
    ensures
        forall|i: int| 0 <= i < escape_html(s).len() ==> !html_special(#[trigger] escape_html(s)[i]),
    decreases s.len(),
{
    reveal_strlit("&amp;");
    reveal_strlit("&lt;");
    reveal_strlit("&gt;");
    reveal_strlit("&quot;");
    reveal_strlit("&#39;");
    if s.len() > 0 {
        law_escape_html_removes_specials(s.drop_last());
        let a = escape_html(s.drop_last());
        let b = html_escape_char(s.last());
        assert forall|i: int| 0 <= i < (a + b).len() implies !html_special(#[trigger] (a + b)[i]) by {
            if i >= a.len() {
                assert((a + b)[i] == b[i - a.len()]);
            }
        }
    }
}

/// Escaping a concatenation is concatenating the escapings: writing two
/// values one after the other into the same buffer escapes their joint
/// text.
pub proof fn law_escape_html_concat(a: Seq<char>, b: Seq<char>)
    ensures
        escape_html(a + b) == escape_html(a) + escape_html(b),
    decreases b.len(),
{
    if b.len() == 0 {
        assert(a + b =~= a);
        assert(escape_html(a) + escape_html(b) =~= escape_html(a));
    } else {
        law_escape_html_concat(a, b.drop_last());
        assert((a + b).drop_last() =~= a + b.drop_last());
        assert((a + b).last() == b.last());
        assert(escape_html(a) + escape_html(b.drop_last()) + html_escape_char(b.last()) =~= escape_html(a)
            + (escape_html(b.drop_last()) + html_escape_char(b.last())));
    }
}

/// A character that JavaScript escaping never lets through as is.
pub open spec fn js_special(c: char) -> bool {
    c == '<' || c == '>' || c == '&' || c == '$' || c == '\n' || c == '\r' || c == '\t'
}

/// JavaScript escaping leaves no `<`, `>`, `&`, `$`, line feed, carriage
/// return nor tab in its output, so the value can neither close a
/// `<script>` element nor open an interpolation in a template literal.
pub proof fn law_escape_js_removes_specials(s: Seq<char>)
    ensures
        forall|i: int| 0 <= i < escape_js(s).len() ==> !js_special(#[trigger] escape_js(s)[i]),
    decreases s.len(),
{
    reveal_strlit("\\\\");
    reveal_strlit("\\\"");
    reveal_strlit("\\'");
    reveal_strlit("\\`");
    reveal_strlit("\\n");
    reveal_strlit("\\r");
    reveal_strlit("\\t");
    reveal_strlit("\\x3C");
    reveal_strlit("\\x3E");
    reveal_strlit("\\x26");
    reveal_strlit("\\x24");
    if s.len() > 0 {
        law_escape_js_removes_specials(s.drop_last());
        let a = escape_js(s.drop_last());
        let b = js_escape_char(s.last());
        assert forall|i: int| 0 <= i < (a + b).len() implies !js_special(#[trigger] (a + b)[i]) by {
            if i >= a.len() {
                assert((a + b)[i] == b[i - a.len()]);
            }
        }
    }
}

/// A character that may appear in URL-encoded output: an unreserved
/// character, `%`, or an upper-case hexadecimal digit.
pub open spec fn url_safe(c: char) -> bool {
    ||| ('A' <= c && c <= 'Z')
    ||| ('a' <= c && c <= 'z')
    ||| ('0' <= c && c <= '9')
    ||| c == '-'
    ||| c == '_'
    ||| c == '.'
    ||| c == '~'
    ||| c == '%'
}

/// URL encoding only writes unreserved characters, `%` and hexadecimal
/// digits.
pub proof fn law_escape_url_only_safe(bs: Seq<u8>)
    ensures
        forall|i: int| 0 <= i < escape_url(bs).len() ==> url_safe(#[trigger] escape_url(bs)[i]),
    decreases bs.len(),
{
    if bs.len() > 0 {
        law_escape_url_only_safe(bs.drop_last());
        let a = escape_url(bs.drop_last());
        let b = url_escape_byte(bs.last());
        assert forall|i: int| 0 <= i < (a + b).len() implies url_safe(#[trigger] (a + b)[i]) by {
            if i >= a.len() {
                assert((a + b)[i] == b[i - a.len()]);
            }
        }
    }
}

/// `s` begins with the characters of `lit`.
pub open spec fn begins_with(s: Seq<char>, lit: Seq<char>) -> bool {
    s.len() >= lit.len() && s.subrange(0, lit.len() as int) == lit
}

/// Decoding of the five HTML entities that escaping writes: `&amp;`,
/// `&lt;`, `&gt;`, `&quot;` and `&#39;` become their character; any other
/// character is kept.
pub open spec fn html_unescape(s: Seq<char>) -> Seq<char>
    decreases s.len(),
{
    if s.len() == 0 {
        Seq::empty()
    } else if s.len() >= 5 && begins_with(s, "&amp;"@) {
        seq!['&'] + html_unescape(s.subrange(5, s.len() as int))
    } else if s.len() >= 4 && begins_with(s, "&lt;"@) {
        seq!['<'] + html_unescape(s.subrange(4, s.len() as int))
    } else if s.len() >= 4 && begins_with(s, "&gt;"@) {
        seq!['>'] + html_unescape(s.subrange(4, s.len() as int))
    } else if s.len() >= 6 && begins_with(s, "&quot;"@) {
        seq!['"'] + html_unescape(s.subrange(6, s.len() as int))
    } else if s.len() >= 5 && begins_with(s, "&#39;"@) {
        seq!['\''] + html_unescape(s.subrange(5, s.len() as int))
    } else {
        seq![s[0]] + html_unescape(s.subrange(1, s.len() as int))
    }
}

proof fn lemma_html_unescape_char(c: char, rest: Seq<char>)
    ensures
        html_unescape(html_escape_char(c) + rest) == seq![c] + html_unescape(rest),
{
    reveal_strlit("&amp;");
    reveal_strlit("&lt;");
    reveal_strlit("&gt;");
    reveal_strlit("&quot;");
    reveal_strlit("&#39;");
    let e = html_escape_char(c);
    let x = e + rest;
    assert(x.subrange(e.len() as int, x.len() as int) =~= rest);
    assert(x.subrange(0, e.len() as int) =~= e);
    if c == '&' {
    } else if c == '<' {
        assert(x[1] == 'l');
        assert(!begins_with(x, "&amp;"@)) by {
            if begins_with(x, "&amp;"@) {
                assert(x.subrange(0, 5)[1] == x[1]);
            }
        }
    } else if c == '>' {
        assert(x[1] == 'g');
        assert(!begins_with(x, "&amp;"@)) by {
            if begins_with(x, "&amp;"@) {
                assert(x.subrange(0, 5)[1] == x[1]);
            }
        }
        assert(!begins_with(x, "&lt;"@)) by {
            if begins_with(x, "&lt;"@) {
                assert(x.subrange(0, 4)[1] == x[1]);
            }
        }
    } else if c == '"' {
        assert(x[1] == 'q');
        assert(!begins_with(x, "&amp;"@)) by {
            if begins_with(x, "&amp;"@) {
                assert(x.subrange(0, 5)[1] == x[1]);
            }
        }
        assert(!begins_with(x, "&lt;"@)) by {
            if begins_with(x, "&lt;"@) {
                assert(x.subrange(0, 4)[1] == x[1]);
            }
        }
        assert(!begins_with(x, "&gt;"@)) by {
            if begins_with(x, "&gt;"@) {
                assert(x.subrange(0, 4)[1] == x[1]);
            }
        }
    } else if c == '\'' {
        assert(x[1] == '#');
        assert(!begins_with(x, "&amp;"@)) by {
            if begins_with(x, "&amp;"@) {
                assert(x.subrange(0, 5)[1] == x[1]);
            }
        }
        assert(!begins_with(x, "&lt;"@)) by {
            if begins_with(x, "&lt;"@) {
                assert(x.subrange(0, 4)[1] == x[1]);
            }
        }
        assert(!begins_with(x, "&gt;"@)) by {
            if begins_with(x, "&gt;"@) {
                assert(x.subrange(0, 4)[1] == x[1]);
            }
        }
        assert(!begins_with(x, "&quot;"@)) by {
            if begins_with(x, "&quot;"@) {
                assert(x.subrange(0, 6)[1] == x[1]);
            }
        }
    } else {
        assert(x[0] == c);
        assert(!begins_with(x, "&amp;"@)) by {
            if begins_with(x, "&amp;"@) {
                assert(x.subrange(0, 5)[0] == x[0]);
            }
        }
        assert(!begins_with(x, "&lt;"@)) by {
            if begins_with(x, "&lt;"@) {
                assert(x.subrange(0, 4)[0] == x[0]);
            }
        }
        assert(!begins_with(x, "&gt;"@)) by {
            if begins_with(x, "&gt;"@) {
                assert(x.subrange(0, 4)[0] == x[0]);
            }
        }
        assert(!begins_with(x, "&quot;"@)) by {
            if begins_with(x, "&quot;"@) {
                assert(x.subrange(0, 6)[0] == x[0]);
            }
        }
        assert(!begins_with(x, "&#39;"@)) by {
            if begins_with(x, "&#39;"@) {
                assert(x.subrange(0, 5)[0] == x[0]);
            }
        }
    }
}

/// HTML escaping loses nothing: decoding the five entities it writes gives
/// back the value. In particular every `&` of the output starts one of
/// those entities.
pub proof fn law_escape_html_round_trip(s: Seq<char>)
    ensures
        html_unescape(escape_html(s)) == s,
    decreases s.len(),
{
    if s.len() > 0 {
        let c = s[0];
        let rest = s.drop_first();
        assert(s =~= seq![c] + rest);
        law_escape_html_concat(seq![c], rest);
        assert(seq![c].drop_last() =~= Seq::<char>::empty());
        assert(escape_html(Seq::<char>::empty()) == Seq::<char>::empty());
        assert(Seq::<char>::empty() + html_escape_char(c) =~= html_escape_char(c));
        assert(escape_html(seq![c]) == html_escape_char(c));
        lemma_html_unescape_char(c, escape_html(rest));
        law_escape_html_round_trip(rest);
    }
}

/// Escaped for JavaScript, a value never holds `${`: placed inside a
/// template literal, it cannot open an interpolation.
pub proof fn law_escape_js_no_interpolation(s: Seq<char>)
    ensures
        forall|i: int|
            0 <= i < escape_js(s).len() - 1 ==> !(#[trigger] escape_js(s)[i] == '$' && escape_js(
                s,
            )[i + 1] == '{'),
{
    law_escape_js_removes_specials(s);
    assert forall|i: int| 0 <= i < escape_js(s).len() - 1 implies !(#[trigger] escape_js(s)[i]
        == '$' && escape_js(s)[i + 1] == '{') by {
        assert(!js_special(escape_js(s)[i]));
    }
}

} // verus!
