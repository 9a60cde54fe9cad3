use vstd::prelude::*;
use crate::writer::{reported, StrWrite};

verus! {

/// The concatenation of `f(c)` for every character `c` of `s`, in order.
pub open spec fn flat_map_chars(s: Seq<char>, f: spec_fn(char) -> Seq<char>) -> Seq<char>
    decreases s.len(),
{
    if s.len() == 0 {
        Seq::empty()
    } else {
        flat_map_chars(s.drop_last(), f) + f(s.last())
    }
}

pub proof fn lemma_flat_map_concat(a: Seq<char>, b: Seq<char>, f: spec_fn(char) -> Seq<char>)
    ensures
        flat_map_chars(a + b, f) == flat_map_chars(a, f) + flat_map_chars(b, f),
    decreases b.len(),
{
    if b.len() == 0 {
        assert(a + b =~= a);
        assert(flat_map_chars(a, f) + Seq::<char>::empty() =~= flat_map_chars(a, f));
    } else {
        assert((a + b).drop_last() =~= a + b.drop_last());
        lemma_flat_map_concat(a, b.drop_last(), f);
        assert(flat_map_chars(a, f) + flat_map_chars(b.drop_last(), f) + f(b.last())
            =~= flat_map_chars(a, f) + (flat_map_chars(b.drop_last(), f) + f(b.last())));
    }
}

/// Where `f` keeps every character of `s` as it is, it keeps `s` as it is.
pub proof fn lemma_flat_map_identity(s: Seq<char>, f: spec_fn(char) -> Seq<char>)
    requires
        forall|k: int| 0 <= k < s.len() ==> #[trigger] f(s[k]) == seq![s[k]],
    ensures
        flat_map_chars(s, f) == s,
    decreases s.len(),
{
    if s.len() > 0 {
        assert forall|k: int| 0 <= k < s.drop_last().len() implies
            #[trigger] f(s.drop_last()[k]) == seq![s.drop_last()[k]] by {
            assert(s.drop_last()[k] == s[k]);
        }
        lemma_flat_map_identity(s.drop_last(), f);
        assert(f(s[s.len() - 1]) == seq![s[s.len() - 1]]);
        assert(s.drop_last().push(s.last()) =~= s);
    }
}

pub proof fn lemma_flat_map_push(s: Seq<char>, c: char, f: spec_fn(char) -> Seq<char>)
    ensures
        flat_map_chars(s.push(c), f) == flat_map_chars(s, f) + f(c),
{
    assert(s.push(c).drop_last() =~= s);
}

/// What HTML escaping makes of one character: the characters `"`, `&`,
/// `<` and `>` become entities, every other character stays.
pub open spec fn html_escape_char(c: char) -> Seq<char> {
    if c == '"' {
        "&quot;"@
    } else if c == '&' {
        "&amp;"@
    } else if c == '<' {
        "&lt;"@
    } else if c == '>' {
        "&gt;"@
    } else {
        seq![c]
    }
}

/// The HTML-escaped form of a text.
pub open spec fn escape_html_text(s: Seq<char>) -> Seq<char> {
    flat_map_chars(s, html_escaper())
}

/// `html_escape_char` as a function value.
pub open spec fn html_escaper() -> spec_fn(char) -> Seq<char> {
    |c: char| html_escape_char(c)
}

/// The characters that a link destination keeps as they are: ASCII letters
/// and digits and the punctuation `! # $ % ( ) * + , - . / : ; = ? @ _`.
pub open spec fn href_safe(c: char) -> bool {
    ||| ('a' <= c && c <= 'z')
    ||| ('A' <= c && c <= 'Z')
    ||| ('0' <= c && c <= '9')
    ||| c == '!' || c == '#' || c == '$' || c == '%' || c == '(' || c == ')'
    ||| c == '*' || c == '+' || c == ',' || c == '-' || c == '.' || c == '/'
    ||| c == ':' || c == ';' || c == '=' || c == '?' || c == '@' || c == '_'
}

/// The upper-case hexadecimal digit for a value below 16.
pub open spec fn hex_digit(d: u8) -> char {
    if d == 0 { '0' } else if d == 1 { '1' } else if d == 2 { '2' } else if d == 3 { '3' }
    else if d == 4 { '4' } else if d == 5 { '5' } else if d == 6 { '6' } else if d == 7 { '7' }
    else if d == 8 { '8' } else if d == 9 { '9' } else if d == 10 { 'A' } else if d == 11 { 'B' }
    else if d == 12 { 'C' } else if d == 13 { 'D' } else if d == 14 { 'E' } else { 'F' }
}

/// `%XX` for each byte, with `XX` the byte in upper-case hexadecimal.
pub open spec fn percent_encode(bytes: Seq<u8>) -> Seq<char>
    decreases bytes.len(),
{
    if bytes.len() == 0 {
        Seq::empty()
    } else {
        let b = bytes.last();
        percent_encode(bytes.drop_last()) + seq!['%', hex_digit(b >> 4), hex_digit(b & 0xf)]
    }
}

/// What escaping a link destination makes of one character: safe characters
/// stay, `&` and `'` become entities, and every other character becomes the
/// percent-encoding of its UTF-8 bytes.
pub open spec fn href_escape_char(c: char) -> Seq<char> {
    if href_safe(c) {
        seq![c]
    } else if c == '&' {
        "&amp;"@
    } else if c == '\'' {
        "&#x27;"@
    } else {
        percent_encode(vstd::utf8::encode_scalar(c as u32))
    }
}

/// The escaped form of a link destination.
pub open spec fn escape_href_text(s: Seq<char>) -> Seq<char> {
    flat_map_chars(s, href_escaper())
}

/// `href_escape_char` as a function value.
pub open spec fn href_escaper() -> spec_fn(char) -> Seq<char> {
    |c: char| href_escape_char(c)
}

/// The decimal digit for a value below 10.
pub open spec fn digit_char(d: nat) -> char {
    if d == 0 { '0' } else if d == 1 { '1' } else if d == 2 { '2' } else if d == 3 { '3' }
    else if d == 4 { '4' } else if d == 5 { '5' } else if d == 6 { '6' } else if d == 7 { '7' }
    else if d == 8 { '8' } else { '9' }
}

/// The decimal representation of a natural number, without leading zeros.
pub open spec fn decimal(n: nat) -> Seq<char>
    decreases n,
{
    if n < 10 {
        seq![digit_char(n)]
    } else {
        decimal(n / 10).push(digit_char(n % 10))
    }
}

/// The decimal representation of an integer, with a `-` before a negative one.
pub open spec fn int_decimal(n: int) -> Seq<char> {
    if n < 0 {
        seq!['-'] + decimal((-n) as nat)
    } else {
        decimal(n as nat)
    }
}

fn html_entity(c: char) -> (r: Option<&'static str>)
    ensures
        match r {
            Some(e) => e@ == html_escape_char(c) && (c == '"' || c == '&' || c == '<' || c == '>'),
            None => html_escape_char(c) == seq![c],
        },
{
    if c == '"' {
        Some("&quot;")
    } else if c == '&' {
        Some("&amp;")
    } else if c == '<' {
        Some("&lt;")
    } else if c == '>' {
        Some("&gt;")
    } else {
        None
    }
}

/// Writes `s` to `w` with `"`, `&`, `<` and `>` replaced by their entities.
/// Runs of characters that need no escaping are written in one piece.
pub fn escape_html<W: StrWrite>(w: &mut W, s: &str) -> (r: Result<(), std::io::Error>)
    ensures
        r is Ok ==> final(w).written() == old(w).written() + escape_html_text(s@),
        reported(r, old(w).errors(), final(w).errors()),
{
    let len = s.unicode_len();
    let mut mark: usize = 0;
    let mut i: usize = 0;
    while i < len
        invariant
            len == s@.len(),
            mark <= i <= len,
            w.written() == old(w).written() + flat_map_chars(s@.take(mark as int), html_escaper()),
            forall|k: int| mark <= k < i ==> #[trigger] html_escaper()(s@[k]) == seq![s@[k]],
            w.errors() == old(w).errors(),
        decreases len - i,
    {
        let c = s.get_char(i);
        match html_entity(c) {
            Some(e) => {
                let ghost run = s@.subrange(mark as int, i as int);
                proof {
                    assert forall|k: int| 0 <= k < run.len() implies #[trigger] html_escaper()(run[k]) == seq![run[k]] by {
                        assert(run[k] == s@[mark + k]);
                    }
                    lemma_flat_map_identity(run, html_escaper());
                    assert(s@.take(i as int) =~= s@.take(mark as int) + run);
                    lemma_flat_map_concat(s@.take(mark as int), run, html_escaper());
                    assert(s@.take(i + 1) =~= s@.take(i as int).push(c));
                    lemma_flat_map_push(s@.take(i as int), c, html_escaper());
                }
                if mark < i {
                    if let Err(e) = w.write_str(s.substring_char(mark, i)) {
                        return Err(e);
                    }
                }
                if let Err(e) = w.write_str(e) {
                    return Err(e);
                }
                proof {
                    assert(w.written() =~= old(w).written() + flat_map_chars(s@.take(i + 1), html_escaper()));
                }
                mark = i + 1;
            },
            None => {
                assert(html_escaper()(s@[i as int]) == seq![s@[i as int]]);
            },
        }
        i += 1;
    }
    proof {
        let run = s@.subrange(mark as int, len as int);
        assert forall|k: int| 0 <= k < run.len() implies #[trigger] html_escaper()(run[k]) == seq![run[k]] by {
            assert(run[k] == s@[mark + k]);
        }
        lemma_flat_map_identity(run, html_escaper());
        assert(s@ =~= s@.take(mark as int) + run);
        lemma_flat_map_concat(s@.take(mark as int), run, html_escaper());
    }
    let r = w.write_str(s.substring_char(mark, len));
    proof {
        if r is Ok {
            assert(w.written() =~= old(w).written() + flat_map_chars(s@, html_escaper()));
        }
    }
    r
}

fn hex_str(d: u8) -> (r: &'static str)
    requires
        d < 16,
    ensures
        r@ == seq![hex_digit(d)],
{
    proof {
        reveal_strlit("0"); reveal_strlit("1"); reveal_strlit("2"); reveal_strlit("3");
        reveal_strlit("4"); reveal_strlit("5"); reveal_strlit("6"); reveal_strlit("7");
        reveal_strlit("8"); reveal_strlit("9"); reveal_strlit("A"); reveal_strlit("B");
        reveal_strlit("C"); reveal_strlit("D"); reveal_strlit("E"); reveal_strlit("F");
    }
    if d == 0 { "0" } else if d == 1 { "1" } else if d == 2 { "2" } else if d == 3 { "3" }
    else if d == 4 { "4" } else if d == 5 { "5" } else if d == 6 { "6" } else if d == 7 { "7" }
    else if d == 8 { "8" } else if d == 9 { "9" } else if d == 10 { "A" } else if d == 11 { "B" }
    else if d == 12 { "C" } else if d == 13 { "D" } else if d == 14 { "E" } else { "F" }
}

/// The UTF-8 bytes of a character.
fn utf8_bytes(c: char) -> (r: Vec<u8>)
    ensures
        r@ == vstd::utf8::encode_scalar(c as u32),
{
    let v = c as u32;
    let mut r: Vec<u8> = Vec::new();
    if v <= 0x7F {
        r.push((v & 0x7F) as u8);
    } else if v <= 0x7FF {
        r.push(0xC0 | ((v >> 6) & 0x1F) as u8);
        r.push(0x80 | (v & 0x3F) as u8);
    } else if v <= 0xFFFF {
        r.push(0xE0 | ((v >> 12) & 0x0F) as u8);
        r.push(0x80 | ((v >> 6) & 0x3F) as u8);
        r.push(0x80 | (v & 0x3F) as u8);
    } else {
        r.push(0xF0 | ((v >> 18) & 0x7) as u8);
        r.push(0x80 | ((v >> 12) & 0x3F) as u8);
        r.push(0x80 | ((v >> 6) & 0x3F) as u8);
        r.push(0x80 | (v & 0x3F) as u8);
    }
    proof {
        vstd::utf8::char_is_scalar(c);
        assert(r@ =~= vstd::utf8::encode_scalar(v));
    }
    r
}

/// Writes `%XX` for each byte of `bytes`.
fn write_percent_encoded<W: StrWrite>(w: &mut W, bytes: &Vec<u8>) -> (r: Result<(), std::io::Error>)
    ensures
        r is Ok ==> final(w).written() == old(w).written() + percent_encode(bytes@),
        reported(r, old(w).errors(), final(w).errors()),
{
    let mut i: usize = 0;
    while i < bytes.len()
        invariant
            i <= bytes@.len(),
            w.written() == old(w).written() + percent_encode(bytes@.take(i as int)),
            w.errors() == old(w).errors(),
        decreases bytes@.len() - i,
    {
        let b = bytes[i];
        assert(b >> 4 < 16 && b & 0xf < 16) by (bit_vector);
        proof {
            reveal_strlit("%");
            assert(bytes@.take(i + 1).drop_last() =~= bytes@.take(i as int));
        }
        if let Err(e) = w.write_str("%") {
            return Err(e);
        }
        if let Err(e) = w.write_str(hex_str(b >> 4)) {
            return Err(e);
        }
        if let Err(e) = w.write_str(hex_str(b & 0xf)) {
            return Err(e);
        }
        assert(w.written() =~= old(w).written() + percent_encode(bytes@.take(i + 1)));
        i += 1;
    }
    assert(bytes@.take(i as int) =~= bytes@);
    Ok(())
}

fn is_href_safe(c: char) -> (r: bool)
    ensures
        r == href_safe(c),
{
    ('a' <= c && c <= 'z') || ('A' <= c && c <= 'Z') || ('0' <= c && c <= '9')
        || c == '!' || c == '#' || c == '$' || c == '%' || c == '(' || c == ')'
        || c == '*' || c == '+' || c == ',' || c == '-' || c == '.' || c == '/'
        || c == ':' || c == ';' || c == '=' || c == '?' || c == '@' || c == '_'
}

/// Writes the escaped form of one character that is not safe in a link destination.
fn write_href_escape<W: StrWrite>(w: &mut W, c: char) -> (r: Result<(), std::io::Error>)
    requires
        !href_safe(c),
    ensures
        r is Ok ==> final(w).written() == old(w).written() + href_escape_char(c),
        reported(r, old(w).errors(), final(w).errors()),
{
    if c == '&' {
        w.write_str("&amp;")
    } else if c == '\'' {
        w.write_str("&#x27;")
    } else {
        let bytes = utf8_bytes(c);
        write_percent_encoded(w, &bytes)
    }
}

/// Writes a link destination to `w`: safe characters as they are, `&` and `'`
/// as entities, every other character as the percent-encoding of its UTF-8 bytes.
pub fn escape_href<W: StrWrite>(w: &mut W, s: &str) -> (r: Result<(), std::io::Error>)
    ensures
        r is Ok ==> final(w).written() == old(w).written() + escape_href_text(s@),
        reported(r, old(w).errors(), final(w).errors()),
{
    let len = s.unicode_len();
    let mut mark: usize = 0;
    let mut i: usize = 0;
    while i < len
        invariant
            len == s@.len(),
            mark <= i <= len,
            w.written() == old(w).written() + flat_map_chars(s@.take(mark as int), href_escaper()),
            forall|k: int| mark <= k < i ==> #[trigger] href_escaper()(s@[k]) == seq![s@[k]],
            w.errors() == old(w).errors(),
        decreases len - i,
    {
        let c = s.get_char(i);
        if !is_href_safe(c) {
            let ghost run = s@.subrange(mark as int, i as int);
            proof {
                assert forall|k: int| 0 <= k < run.len() implies #[trigger] href_escaper()(run[k]) == seq![run[k]] by {
                    assert(run[k] == s@[mark + k]);
                }
                lemma_flat_map_identity(run, href_escaper());
                assert(s@.take(i as int) =~= s@.take(mark as int) + run);
                lemma_flat_map_concat(s@.take(mark as int), run, href_escaper());
                assert(s@.take(i + 1) =~= s@.take(i as int).push(c));
                lemma_flat_map_push(s@.take(i as int), c, href_escaper());
            }
            if mark < i {
                if let Err(e) = w.write_str(s.substring_char(mark, i)) {
                    return Err(e);
                }
            }
            if let Err(e) = write_href_escape(w, c) {
                return Err(e);
            }
            proof {
                assert(w.written() =~= old(w).written() + flat_map_chars(s@.take(i + 1), href_escaper()));
            }
            mark = i + 1;
        }
        i += 1;
    }
    proof {
        let run = s@.subrange(mark as int, len as int);
        assert forall|k: int| 0 <= k < run.len() implies #[trigger] href_escaper()(run[k]) == seq![run[k]] by {
            assert(run[k] == s@[mark + k]);
        }
        lemma_flat_map_identity(run, href_escaper());
        assert(s@ =~= s@.take(mark as int) + run);
        lemma_flat_map_concat(s@.take(mark as int), run, href_escaper());
    }
    let r = w.write_str(s.substring_char(mark, len));
    proof {
        if r is Ok {
            assert(w.written() =~= old(w).written() + flat_map_chars(s@, href_escaper()));
        }
    }
    r
}

fn digit_str(d: u64) -> (r: &'static str)
    requires
        d < 10,
    ensures
        r@ == seq![digit_char(d as nat)],
{
    proof {
        reveal_strlit("0"); reveal_strlit("1"); reveal_strlit("2"); reveal_strlit("3");
        reveal_strlit("4"); reveal_strlit("5"); reveal_strlit("6"); reveal_strlit("7");
        reveal_strlit("8"); reveal_strlit("9");
    }
    if d == 0 { "0" } else if d == 1 { "1" } else if d == 2 { "2" } else if d == 3 { "3" }
    else if d == 4 { "4" } else if d == 5 { "5" } else if d == 6 { "6" } else if d == 7 { "7" }
    else if d == 8 { "8" } else { "9" }
}

/// Writes `n` in decimal.
pub fn write_decimal<W: StrWrite>(w: &mut W, n: u64) -> (r: Result<(), std::io::Error>)
    ensures
        r is Ok ==> final(w).written() == old(w).written() + decimal(n as nat),
        reported(r, old(w).errors(), final(w).errors()),
    decreases n,
{
    if n >= 10 {
        if let Err(e) = write_decimal(w, n / 10) {
            return Err(e);
        }
    }
    let r = w.write_str(digit_str(n % 10));
    proof {
        if r is Ok {
            assert(w.written() =~= old(w).written() + decimal(n as nat));
        }
    }
    r
}

/// Writes `n` in decimal, with a `-` before a negative number.
pub fn write_int<W: StrWrite>(w: &mut W, n: i32) -> (r: Result<(), std::io::Error>)
    ensures
        r is Ok ==> final(w).written() == old(w).written() + int_decimal(n as int),
        reported(r, old(w).errors(), final(w).errors()),
{
    if n < 0 {
        proof { reveal_strlit("-"); }
        if let Err(e) = w.write_str("-") {
            return Err(e);
        }
        let m: u64 = (-(n as i64)) as u64;
        let r = write_decimal(w, m);
        proof {
            if r is Ok {
                assert(w.written() =~= old(w).written() + int_decimal(n as int));
            }
        }
        r
    } else {
        write_decimal(w, n as u64)
    }
}

} // verus!
