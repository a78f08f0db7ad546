//! The durable snapshot encoding of the ledger: a JSON object with two
//! arrays, `{"posted_blogs":[...],"posted_bug_ids":[...]}`, holding the
//! feed identifiers as quoted strings (quote and backslash escaped) and
//! the tracker identifiers in decimal. Encoding and parsing are both
//! defined here, down to the character, and parsing provably inverts
//! encoding, so a flushed ledger survives a restart unchanged.

use vstd::prelude::*;

use crate::num::dec_digits;
use crate::num::digit_char;
use crate::num::int_dec;

verus! {

// ---------------------------------------------------------------------------
// The encoding, as a specification.
// ---------------------------------------------------------------------------
/// How one character of an identifier is written inside a quoted string:
/// quote and backslash get a backslash before them, everything else stands
/// as itself.
pub open spec fn esc_char(c: char) -> Seq<char> {
    if c == '"' || c == '\\' {
        seq!['\\', c]
    } else {
        seq![c]
    }
}

/// The escaped form of a whole identifier.
pub open spec fn esc(s: Seq<char>) -> Seq<char>
    decreases s.len(),
{
    if s.len() == 0 {
        Seq::empty()
    } else {
        esc_char(s[0]) + esc(s.drop_first())
    }
}

/// A quoted, escaped identifier.
pub open spec fn quoted(s: Seq<char>) -> Seq<char> {
    seq!['"'] + esc(s) + seq!['"']
}

/// The comma-separated quoted identifiers of the string array, without the
/// surrounding brackets.
pub open spec fn str_items_enc(l: Seq<Seq<char>>) -> Seq<char>
    decreases l.len(),
{
    if l.len() == 0 {
        Seq::empty()
    } else if l.len() == 1 {
        quoted(l[0])
    } else {
        quoted(l[0]) + seq![','] + str_items_enc(l.drop_first())
    }
}

/// The comma-separated decimal identifiers of the integer array, without
/// the surrounding brackets.
pub open spec fn int_items_enc(l: Seq<i64>) -> Seq<char>
    decreases l.len(),
{
    if l.len() == 0 {
        Seq::empty()
    } else if l.len() == 1 {
        int_dec(l[0] as int)
    } else {
        int_dec(l[0] as int) + seq![','] + int_items_enc(l.drop_first())
    }
}

/// The full snapshot text for the two identifier lists.
pub open spec fn snapshot_spec(blogs: Seq<Seq<char>>, bugs: Seq<i64>) -> Seq<char> {
    "{\"posted_blogs\":["@ + str_items_enc(blogs) + "],\"posted_bug_ids\":["@ + int_items_enc(bugs)
        + "]}"@
}

/// The membership set of a list of string identifiers.
pub open spec fn str_set(l: Seq<Seq<char>>) -> Set<Seq<char>> {
    Set::new(|x: Seq<char>| exists|i: int| 0 <= i < l.len() && l[i] == x)
}

/// The membership set of a list of integer identifiers.
pub open spec fn int_set(l: Seq<i64>) -> Set<int> {
    Set::new(|x: int| exists|i: int| 0 <= i < l.len() && l[i] as int == x)
}

// ---------------------------------------------------------------------------
// The encoder.
// ---------------------------------------------------------------------------
/// Relies on String::push: appends exactly the one given character.
#[verifier::external_body]
fn push_char(s: &mut String, c: char)
    ensures
        final(s)@ == old(s)@.push(c),
{
    s.push(c);
}

/// Escaping one more character extends the escaped text by that
/// character's escape.
proof fn lemma_esc_snoc(t: Seq<char>, c: char)
    ensures
        esc(t.push(c)) == esc(t) + esc_char(c),
    decreases t.len(),
{
    if t.len() == 0 {
        assert(t.push(c)[0] == c);
        assert(t.push(c).drop_first() =~= Seq::<char>::empty());
        assert(esc(t.push(c)) == esc_char(c) + esc(Seq::<char>::empty()));
        assert(esc(Seq::<char>::empty()) == Seq::<char>::empty());
        assert(esc_char(c) + Seq::<char>::empty() =~= esc_char(c));
        assert(esc(t) + esc_char(c) =~= esc_char(c));
    } else {
        assert(t.push(c)[0] == t[0]);
        assert(t.push(c).drop_first() =~= t.drop_first().push(c));
        lemma_esc_snoc(t.drop_first(), c);
        assert(esc(t.push(c)) =~= esc(t) + esc_char(c));
    }
}

/// Appends the escaped form of an identifier.
fn append_escaped(out: &mut String, s: &str)
    ensures
        final(out)@ == old(out)@ + esc(s@),
{
    let n = s.unicode_len();
    proof {
        assert(s@.take(0) =~= Seq::<char>::empty());
        assert(old(out)@ + esc(s@.take(0)) =~= old(out)@);
    }
    let mut k: usize = 0;
    while k < n
        invariant
            n == s@.len(),
            k <= n,
            out@ == old(out)@ + esc(s@.take(k as int)),
        decreases n - k,
    {
        let c = s.get_char(k);
        if c == '"' || c == '\\' {
            push_char(out, '\\');
            push_char(out, c);
        } else {
            push_char(out, c);
        }
        proof {
            assert(s@.take(k as int + 1) =~= s@.take(k as int).push(s@[k as int]));
            lemma_esc_snoc(s@.take(k as int), s@[k as int]);
            assert(out@ =~= old(out)@ + esc(s@.take(k as int + 1)));
        }
        k += 1;
    }
    proof {
        assert(s@.take(n as int) =~= s@);
    }
}

/// Appends a quoted, escaped identifier.
fn append_quoted(out: &mut String, s: &str)
    ensures
        final(out)@ == old(out)@ + quoted(s@),
{
    push_char(out, '"');
    append_escaped(out, s);
    push_char(out, '"');
    proof {
        assert(out@ =~= old(out)@ + quoted(s@));
    }
}

/// Appending one more identifier to a non-empty list appends a comma and
/// its quoted form; to an empty list, just its quoted form.
proof fn lemma_str_items_snoc(l: Seq<Seq<char>>, x: Seq<char>)
    ensures
        l.len() == 0 ==> str_items_enc(l.push(x)) == quoted(x),
        l.len() > 0 ==> str_items_enc(l.push(x)) == str_items_enc(l) + seq![','] + quoted(x),
    decreases l.len(),
{
    if l.len() == 0 {
        assert(l.push(x)[0] == x);
        assert(str_items_enc(l.push(x)) == quoted(x));
    } else if l.len() == 1 {
        assert(l.push(x)[0] == l[0]);
        assert(l.push(x).drop_first() =~= l.drop_first().push(x));
        lemma_str_items_snoc(l.drop_first(), x);
        assert(str_items_enc(l.push(x)) =~= str_items_enc(l) + seq![','] + quoted(x));
    } else {
        assert(l.push(x)[0] == l[0]);
        assert(l.push(x).drop_first() =~= l.drop_first().push(x));
        lemma_str_items_snoc(l.drop_first(), x);
        assert(str_items_enc(l.push(x)) =~= str_items_enc(l) + seq![','] + quoted(x));
    }
}

/// The same, for the integer list.
proof fn lemma_int_items_snoc(l: Seq<i64>, x: i64)
    ensures
        l.len() == 0 ==> int_items_enc(l.push(x)) == int_dec(x as int),
        l.len() > 0 ==> int_items_enc(l.push(x)) == int_items_enc(l) + seq![','] + int_dec(x as int),
    decreases l.len(),
{
    if l.len() == 0 {
        assert(l.push(x)[0] == x);
    } else if l.len() == 1 {
        assert(l.push(x)[0] == l[0]);
        assert(l.push(x).drop_first() =~= l.drop_first().push(x));
        lemma_int_items_snoc(l.drop_first(), x);
        assert(int_items_enc(l.push(x)) =~= int_items_enc(l) + seq![','] + int_dec(x as int));
    } else {
        assert(l.push(x)[0] == l[0]);
        assert(l.push(x).drop_first() =~= l.drop_first().push(x));
        lemma_int_items_snoc(l.drop_first(), x);
        assert(int_items_enc(l.push(x)) =~= int_items_enc(l) + seq![','] + int_dec(x as int));
    }
}

/// Appends the comma-separated string array contents.
fn append_str_items(out: &mut String, l: &Vec<String>)
    ensures
        final(out)@ == old(out)@ + str_items_enc(l@.map_values(|s: String| s@)),
{
    let ghost lv = l@.map_values(|s: String| s@);
    let n = l.len();
    proof {
        assert(lv.take(0) =~= Seq::<Seq<char>>::empty());
        assert(old(out)@ + str_items_enc(lv.take(0)) =~= old(out)@);
    }
    let mut k: usize = 0;
    while k < n
        invariant
            n == l@.len(),
            lv == l@.map_values(|s: String| s@),
            k <= n,
            out@ == old(out)@ + str_items_enc(lv.take(k as int)),
        decreases n - k,
    {
        if k > 0 {
            push_char(out, ',');
        }
        append_quoted(out, l[k].as_str());
        proof {
            assert(lv.take(k as int + 1) =~= lv.take(k as int).push(lv[k as int]));
            lemma_str_items_snoc(lv.take(k as int), lv[k as int]);
            assert(lv[k as int] == l@[k as int]@);
            assert(out@ =~= old(out)@ + str_items_enc(lv.take(k as int + 1)));
        }
        k += 1;
    }
    proof {
        assert(lv.take(n as int) =~= lv);
    }
}

/// Appends the comma-separated integer array contents.
fn append_int_items(out: &mut String, l: &Vec<i64>)
    ensures
        final(out)@ == old(out)@ + int_items_enc(l@),
{
    let n = l.len();
    proof {
        assert(l@.take(0) =~= Seq::<i64>::empty());
        assert(old(out)@ + int_items_enc(l@.take(0)) =~= old(out)@);
    }
    let mut k: usize = 0;
    while k < n
        invariant
            n == l@.len(),
            k <= n,
            out@ == old(out)@ + int_items_enc(l@.take(k as int)),
        decreases n - k,
    {
        if k > 0 {
            push_char(out, ',');
        }
        let digits = crate::num::i64_dec(l[k]);
        out.append(digits.as_str());
        proof {
            assert(l@.take(k as int + 1) =~= l@.take(k as int).push(l@[k as int]));
            lemma_int_items_snoc(l@.take(k as int), l@[k as int]);
            assert(out@ =~= old(out)@ + int_items_enc(l@.take(k as int + 1)));
        }
        k += 1;
    }
    proof {
        assert(l@.take(n as int) =~= l@);
    }
}

/// Builds the snapshot text for the two identifier lists.
pub fn encode_snapshot(blogs: &Vec<String>, bugs: &Vec<i64>) -> (r: String)
    ensures
        r@ == snapshot_spec(blogs@.map_values(|s: String| s@), bugs@),
{
    let mut out: String = "{\"posted_blogs\":[".to_owned();
    append_str_items(&mut out, blogs);
    out.append("],\"posted_bug_ids\":[");
    append_int_items(&mut out, bugs);
    out.append("]}");
    proof {
        assert(out@ =~= snapshot_spec(blogs@.map_values(|s: String| s@), bugs@));
    }
    out
}

// ---------------------------------------------------------------------------
// Parsing, as a specification.
// ---------------------------------------------------------------------------
/// Whether a character is a decimal digit.
pub open spec fn is_digit(c: char) -> bool {
    48 <= c as u32 && c as u32 <= 57
}

/// The value of a digit character.
pub open spec fn digit_val(c: char) -> int {
    c as u32 - 48
}

/// Parses the inside of a quoted string starting just after the opening
/// quote: the unescaped content and the position just past the closing
/// quote.
pub open spec fn parse_str_body(s: Seq<char>, i: int) -> Option<(Seq<char>, int)>
    decreases s.len() - i,
{
    if i < 0 || i >= s.len() {
        None
    } else if s[i] == '"' {
        Some((Seq::empty(), i + 1))
    } else if s[i] == '\\' {
        if i + 1 < s.len() && (s[i + 1] == '"' || s[i + 1] == '\\') {
            match parse_str_body(s, i + 2) {
                Some(p) => Some((seq![s[i + 1]] + p.0, p.1)),
                None => None,
            }
        } else {
            None
        }
    } else {
        match parse_str_body(s, i + 1) {
            Some(p) => Some((seq![s[i]] + p.0, p.1)),
            None => None,
        }
    }
}

/// A successful string-body parse moves strictly forward and stays within
/// the text.
pub proof fn lemma_parse_str_body_bounds(s: Seq<char>, i: int)
    ensures
        match parse_str_body(s, i) {
            Some(p) => i < p.1 <= s.len(),
            None => true,
        },
    decreases s.len() - i,
{
    if 0 <= i < s.len() {
        if s[i] == '"' {
        } else if s[i] == '\\' {
            if i + 1 < s.len() && (s[i + 1] == '"' || s[i + 1] == '\\') {
                lemma_parse_str_body_bounds(s, i + 2);
            }
        } else {
            lemma_parse_str_body_bounds(s, i + 1);
        }
    }
}

/// Parses a quoted string starting at its opening quote.
pub open spec fn parse_quoted(s: Seq<char>, i: int) -> Option<(Seq<char>, int)> {
    if 0 <= i < s.len() && s[i] == '"' {
        parse_str_body(s, i + 1)
    } else {
        None
    }
}

/// One or more comma-separated quoted strings, then the closing bracket.
pub open spec fn parse_str_elems(s: Seq<char>, i: int) -> Option<(Seq<Seq<char>>, int)>
    decreases s.len() - i,
    via parse_str_elems_dec
{
    match parse_quoted(s, i) {
        None => None,
        Some(p) => {
            if p.1 < s.len() && s[p.1] == ']' {
                Some((seq![p.0], p.1 + 1))
            } else if p.1 < s.len() && s[p.1] == ',' {
                match parse_str_elems(s, p.1 + 1) {
                    None => None,
                    Some(q) => Some((seq![p.0] + q.0, q.1)),
                }
            } else {
                None
            }
        },
    }
}

#[via_fn]
proof fn parse_str_elems_dec(s: Seq<char>, i: int) {
    lemma_parse_str_body_bounds(s, i + 1);
}

/// The end of the run of digits starting at a position.
pub open spec fn digit_run_end(s: Seq<char>, i: int) -> int
    decreases s.len() - i,
{
    if i < 0 || i >= s.len() || !is_digit(s[i]) {
        i
    } else {
        digit_run_end(s, i + 1)
    }
}

/// The digit run never moves backwards and stays within the text.
pub proof fn lemma_digit_run_end_bounds(s: Seq<char>, i: int)
    requires
        0 <= i <= s.len(),
    ensures
        i <= digit_run_end(s, i) <= s.len(),
    decreases s.len() - i,
{
    if i < s.len() && is_digit(s[i]) {
        lemma_digit_run_end_bounds(s, i + 1);
    }
}

/// The value of the digits between two positions, most significant first.
pub open spec fn digits_val(s: Seq<char>, i: int, j: int) -> int
    decreases j - i,
{
    if j <= i {
        0
    } else {
        digits_val(s, i, j - 1) * 10 + digit_val(s[j - 1])
    }
}

/// Parses a decimal integer — an optional minus sign, then at least one
/// digit, greedily — into a machine integer; a value outside the machine
/// range fails.
pub open spec fn parse_i64(s: Seq<char>, i: int) -> Option<(i64, int)> {
    if i < 0 || i >= s.len() {
        None
    } else if s[i] == '-' {
        let j = digit_run_end(s, i + 1);
        if j == i + 1 {
            None
        } else {
            let v = -digits_val(s, i + 1, j);
            if v >= i64::MIN as int {
                Some((v as i64, j))
            } else {
                None
            }
        }
    } else {
        let j = digit_run_end(s, i);
        if j == i {
            None
        } else {
            let v = digits_val(s, i, j);
            if v <= i64::MAX as int {
                Some((v as i64, j))
            } else {
                None
            }
        }
    }
}

/// A successful integer parse moves strictly forward and stays within the
/// text.
pub proof fn lemma_parse_i64_bounds(s: Seq<char>, i: int)
    ensures
        match parse_i64(s, i) {
            Some(p) => i < p.1 <= s.len(),
            None => true,
        },
{
    if 0 <= i < s.len() {
        if s[i] == '-' {
            lemma_digit_run_end_bounds(s, i + 1);
        } else {
            lemma_digit_run_end_bounds(s, i);
        }
    }
}

/// One or more comma-separated integers, then the closing bracket.
pub open spec fn parse_int_elems(s: Seq<char>, i: int) -> Option<(Seq<i64>, int)>
    decreases s.len() - i,
    via parse_int_elems_dec
{
    match parse_i64(s, i) {
        None => None,
        Some(p) => {
            if p.1 < s.len() && s[p.1] == ']' {
                Some((seq![p.0], p.1 + 1))
            } else if p.1 < s.len() && s[p.1] == ',' {
                match parse_int_elems(s, p.1 + 1) {
                    None => None,
                    Some(q) => Some((seq![p.0] + q.0, q.1)),
                }
            } else {
                None
            }
        },
    }
}

#[via_fn]
proof fn parse_int_elems_dec(s: Seq<char>, i: int) {
    lemma_parse_i64_bounds(s, i);
}

/// Whether the given text stands at the given position.
pub open spec fn has_lit(s: Seq<char>, i: int, lit: Seq<char>) -> bool {
    0 <= i && i + lit.len() <= s.len() && s.subrange(i, i + lit.len()) == lit
}

/// Parses a whole snapshot text: exactly the object shape the encoder
/// writes, with nothing before or after it. Anything else — a missing
/// field, a malformed string or number, trailing text — fails, and a
/// failed parse means starting from an empty ledger.
pub open spec fn parse_snapshot(s: Seq<char>) -> Option<(Seq<Seq<char>>, Seq<i64>)> {
    let lit1 = "{\"posted_blogs\":["@;
    if !has_lit(s, 0, lit1) {
        None
    } else {
        let p1 = lit1.len() as int;
        let r1 = if p1 < s.len() && s[p1] == ']' {
            Some((Seq::<Seq<char>>::empty(), p1 + 1))
        } else {
            parse_str_elems(s, p1)
        };
        match r1 {
            None => None,
            Some(br) => {
                let lit2 = ",\"posted_bug_ids\":["@;
                if !has_lit(s, br.1, lit2) {
                    None
                } else {
                    let p2 = br.1 + lit2.len();
                    let r2 = if p2 < s.len() && s[p2] == ']' {
                        Some((Seq::<i64>::empty(), p2 + 1))
                    } else {
                        parse_int_elems(s, p2)
                    };
                    match r2 {
                        None => None,
                        Some(gr) => {
                            if gr.1 + 1 == s.len() && gr.1 < s.len() && s[gr.1] == '}' {
                                Some((br.0, gr.0))
                            } else {
                                None
                            }
                        },
                    }
                }
            },
        }
    }
}

// ---------------------------------------------------------------------------
// The executable parser: each function mirrors, and is proved to return,
// exactly what its specification counterpart describes.
// ---------------------------------------------------------------------------
/// A one-character string.
fn char_string(c: char) -> (r: String)
    ensures
        r@ == seq![c],
{
    let mut r = String::new();
    push_char(&mut r, c);
    proof {
        assert(r@ =~= seq![c]);
    }
    r
}

/// The characters of a text, in order.
fn str_chars(s: &str) -> (r: Vec<char>)
    ensures
        r@ == s@,
{
    let n = s.unicode_len();
    let mut v: Vec<char> = Vec::new();
    proof {
        assert(v@ =~= s@.take(0));
    }
    let mut k: usize = 0;
    while k < n
        invariant
            n == s@.len(),
            k <= n,
            v@ == s@.take(k as int),
        decreases n - k,
    {
        v.push(s.get_char(k));
        proof {
            assert(s@.take(k as int + 1) =~= s@.take(k as int).push(s@[k as int]));
        }
        k += 1;
    }
    proof {
        assert(s@.take(n as int) =~= s@);
    }
    v
}

/// Whether the given literal text stands at the given position.
fn ex_has_lit(s: &Vec<char>, i: usize, lit: &str) -> (r: bool)
    ensures
        r == has_lit(s@, i as int, lit@),
{
    let m = lit.unicode_len();
    if i > s.len() || m > s.len() - i {
        return false;
    }
    let mut k: usize = 0;
    while k < m
        invariant
            m == lit@.len(),
            k <= m,
            i + m <= s@.len(),
            s@.len() <= usize::MAX,
            forall|q: int| 0 <= q < k ==> s@[i + q] == lit@[q],
        decreases m - k,
    {
        if s[i + k] != lit.get_char(k) {
            proof {
                assert(s@.subrange(i as int, i as int + m as int) != lit@) by {
                    if s@.subrange(i as int, i as int + m as int) == lit@ {
                        assert(s@.subrange(i as int, i as int + m as int)[k as int] == lit@[
                            k as int
                        ]);
                        assert(s@[i as int + k as int] == lit@[k as int]);
                    }
                }
            }
            return false;
        }
        k += 1;
    }
    proof {
        assert(s@.subrange(i as int, i as int + m as int) =~= lit@);
    }
    true
}

/// Parses the inside of a quoted string, as `parse_str_body` describes.
fn ex_parse_str_body(s: &Vec<char>, i: usize) -> (r: Option<(String, usize)>)
    ensures
        match r {
            Some(p) => parse_str_body(s@, i as int) == Some((p.0@, p.1 as int)) && p.1 <= s@.len(),
            None => parse_str_body(s@, i as int) is None,
        },
    decreases s@.len() - i,
{
    if i >= s.len() {
        return None;
    }
    let c = s[i];
    if c == '"' {
        Some((String::new(), i + 1))
    } else if c == '\\' {
        if i + 1 < s.len() && (s[i + 1] == '"' || s[i + 1] == '\\') {
            match ex_parse_str_body(s, i + 2) {
                None => None,
                Some((t, j)) => {
                    let mut r = char_string(s[i + 1]);
                    r.append(t.as_str());
                    proof {
                        assert(r@ =~= seq![s@[i as int + 1]] + t@);
                    }
                    Some((r, j))
                },
            }
        } else {
            None
        }
    } else {
        match ex_parse_str_body(s, i + 1) {
            None => None,
            Some((t, j)) => {
                let mut r = char_string(c);
                r.append(t.as_str());
                proof {
                    assert(r@ =~= seq![s@[i as int]] + t@);
                }
                Some((r, j))
            },
        }
    }
}

/// Parses a quoted string from its opening quote, as `parse_quoted`
/// describes.
fn ex_parse_quoted(s: &Vec<char>, i: usize) -> (r: Option<(String, usize)>)
    ensures
        match r {
            Some(p) => parse_quoted(s@, i as int) == Some((p.0@, p.1 as int)) && i < p.1 <= s@.len(),
            None => parse_quoted(s@, i as int) is None,
        },
{
    if i < s.len() && s[i] == '"' {
        let r = ex_parse_str_body(s, i + 1);
        proof {
            lemma_parse_str_body_bounds(s@, i as int + 1);
        }
        r
    } else {
        None
    }
}

/// Parses the non-empty element list of the string array, as
/// `parse_str_elems` describes.
fn ex_parse_str_elems(s: &Vec<char>, i: usize) -> (r: Option<(Vec<String>, usize)>)
    ensures
        match r {
            Some(p) => parse_str_elems(s@, i as int) == Some(
                (p.0@.map_values(|t: String| t@), p.1 as int),
            ) && p.1 <= s@.len(),
            None => parse_str_elems(s@, i as int) is None,
        },
    decreases s@.len() - i,
{
    match ex_parse_quoted(s, i) {
        None => None,
        Some((t, j)) => {
            if j < s.len() && s[j] == ']' {
                let mut v: Vec<String> = Vec::new();
                let ghost tv = t@;
                v.push(t);
                proof {
                    assert(v@.map_values(|u: String| u@) =~= seq![tv]);
                }
                Some((v, j + 1))
            } else if j < s.len() && s[j] == ',' {
                match ex_parse_str_elems(s, j + 1) {
                    None => None,
                    Some((mut vs, k2)) => {
                        let ghost tv = t@;
                        let ghost vsv = vs@;
                        vs.insert(0, t);
                        proof {
                            assert(vs@.map_values(|u: String| u@) =~= seq![tv] + vsv.map_values(
                                |u: String| u@,
                            ));
                        }
                        Some((vs, k2))
                    },
                }
            } else {
                None
            }
        },
    }
}

/// Whether a character is a decimal digit.
fn ex_is_digit(c: char) -> (r: bool)
    ensures
        r == is_digit(c),
{
    let u = c as u32;
    48 <= u && u <= 57
}

/// Digit values are non-negative, so the value of a digit run never shrinks
/// as the run extends.
proof fn lemma_digits_val_grows(s: Seq<char>, i: int, j1: int, j2: int)
    requires
        i <= j1 <= j2,
        forall|k: int| i <= k < j2 ==> is_digit(#[trigger] s[k]),
    ensures
        0 <= digits_val(s, i, j1) <= digits_val(s, i, j2),
    decreases j2 - i,
{
    if j2 <= i {
    } else if j1 == j2 {
        lemma_digits_val_grows(s, i, j2 - 1, j2 - 1);
        assert(is_digit(s[j2 - 1]));
        assert(digit_val(s[j2 - 1]) >= 0);
    } else {
        lemma_digits_val_grows(s, i, j1, j2 - 1);
        assert(is_digit(s[j2 - 1]));
        assert(digit_val(s[j2 - 1]) >= 0);
        assert(digits_val(s, i, j2) == digits_val(s, i, j2 - 1) * 10 + digit_val(s[j2 - 1]));
        assert(digits_val(s, i, j2 - 1) * 10 >= digits_val(s, i, j2 - 1));
    }
}

/// Parses a decimal integer, as `parse_i64` describes.
fn ex_parse_i64(s: &Vec<char>, i: usize) -> (r: Option<(i64, usize)>)
    ensures
        match r {
            Some(p) => parse_i64(s@, i as int) == Some((p.0, p.1 as int)) && i < p.1 <= s@.len(),
            None => parse_i64(s@, i as int) is None,
        },
{
    if i >= s.len() {
        return None;
    }
    let neg = s[i] == '-';
    let start = if neg {
        i + 1
    } else {
        i
    };
    let mut j = start;
    while j < s.len() && ex_is_digit(s[j])
        invariant
            start <= j <= s@.len(),
            i <= start,
            forall|k: int| start <= k < j ==> is_digit(#[trigger] s@[k]),
            digit_run_end(s@, start as int) == digit_run_end(s@, j as int),
        decreases s@.len() - j,
    {
        j += 1;
    }
    proof {
        assert(digit_run_end(s@, j as int) == j as int);
    }
    if j == start {
        return None;
    }
    let bound: u64 = if neg {
        9223372036854775808
    } else {
        9223372036854775807
    };
    let mut acc: u64 = 0;
    let mut k = start;
    while k < j
        invariant
            i <= start <= k <= j <= s@.len(),
            start < j,
            i < s@.len(),
            neg == (s@[i as int] == '-'),
            start as int == if neg { i as int + 1 } else { i as int },
            digit_run_end(s@, start as int) == j as int,
            bound == if neg {
                9223372036854775808u64
            } else {
                9223372036854775807u64
            },
            forall|q: int| start <= q < j ==> is_digit(#[trigger] s@[q]),
            acc as int == digits_val(s@, start as int, k as int),
            acc <= bound,
        decreases j - k,
    {
        let c = s[k];
        proof {
            assert(is_digit(s@[k as int]));
        }
        let d: u64 = ((c as u32) - 48) as u64;
        proof {
            assert(d as int == digit_val(s@[k as int]));
        }
        if acc > (bound - d) / 10 {
            proof {
                let b = bound as int;
                let dv = d as int;
                assert(acc as int * 10 + dv > b) by (nonlinear_arith)
                    requires
                        acc as int > (b - dv) / 10,
                        0 <= dv <= 9,
                        b >= 9,
                        acc as int >= 0,
                ;
                assert(digits_val(s@, start as int, k as int + 1) > b);
                lemma_digits_val_grows(s@, start as int, k as int + 1, j as int);
                assert(digits_val(s@, start as int, j as int) > b);
            }
            return None;
        }
        proof {
            let b = bound as int;
            let dv = d as int;
            assert(acc as int * 10 + dv <= b) by (nonlinear_arith)
                requires
                    acc as int <= (b - dv) / 10,
                    0 <= dv <= 9,
                    b >= 9,
                    acc as int >= 0,
            ;
        }
        acc = acc * 10 + d;
        k += 1;
    }
    if neg {
        let v: i64 = (-(acc as i128)) as i64;
        proof {
            assert(v as int == -(acc as int));
        }
        Some((v, j))
    } else {
        Some((acc as i64, j))
    }
}

/// Parses the non-empty element list of the integer array, as
/// `parse_int_elems` describes.
fn ex_parse_int_elems(s: &Vec<char>, i: usize) -> (r: Option<(Vec<i64>, usize)>)
    ensures
        match r {
            Some(p) => parse_int_elems(s@, i as int) == Some((p.0@, p.1 as int)) && p.1
                <= s@.len(),
            None => parse_int_elems(s@, i as int) is None,
        },
    decreases s@.len() - i,
{
    match ex_parse_i64(s, i) {
        None => None,
        Some((t, j)) => {
            if j < s.len() && s[j] == ']' {
                let mut v: Vec<i64> = Vec::new();
                v.push(t);
                proof {
                    assert(v@ =~= seq![t]);
                }
                Some((v, j + 1))
            } else if j < s.len() && s[j] == ',' {
                match ex_parse_int_elems(s, j + 1) {
                    None => None,
                    Some((mut vs, k2)) => {
                        let ghost vsv = vs@;
                        vs.insert(0, t);
                        proof {
                            assert(vs@ =~= seq![t] + vsv);
                        }
                        Some((vs, k2))
                    },
                }
            } else {
                None
            }
        },
    }
}

/// Parses a whole snapshot text, as `parse_snapshot` describes: the two
/// identifier lists, or nothing if the text is not exactly a snapshot.
pub fn decode_snapshot(s: &str) -> (r: Option<(Vec<String>, Vec<i64>)>)
    ensures
        match r {
            Some(p) => parse_snapshot(s@) == Some((p.0@.map_values(|t: String| t@), p.1@)),
            None => parse_snapshot(s@) is None,
        },
{
    let v = str_chars(s);
    if !ex_has_lit(&v, 0, "{\"posted_blogs\":[") {
        return None;
    }
    proof {
        reveal_strlit("{\"posted_blogs\":[");
        assert("{\"posted_blogs\":["@.len() == 17);
    }
    let p1: usize = 17;
    let r1: Option<(Vec<String>, usize)> = if p1 < v.len() && v[p1] == ']' {
        proof {
            assert(Seq::<String>::empty().map_values(|t: String| t@) =~= Seq::<Seq<char>>::empty());
        }
        Some((Vec::new(), p1 + 1))
    } else {
        ex_parse_str_elems(&v, p1)
    };
    match r1 {
        None => None,
        Some((bl, i2)) => {
            if !ex_has_lit(&v, i2, ",\"posted_bug_ids\":[") {
                return None;
            }
            proof {
                reveal_strlit(",\"posted_bug_ids\":[");
                assert(",\"posted_bug_ids\":["@.len() == 19);
            }
            let p2: usize = i2 + 19;
            let r2: Option<(Vec<i64>, usize)> = if p2 < v.len() && v[p2] == ']' {
                Some((Vec::new(), p2 + 1))
            } else {
                ex_parse_int_elems(&v, p2)
            };
            match r2 {
                None => None,
                Some((bg, i3)) => {
                    if i3 < v.len() && v[i3] == '}' && i3 + 1 == v.len() {
                        Some((bl, bg))
                    } else {
                        None
                    }
                },
            }
        },
    }
}

// ---------------------------------------------------------------------------
// Completeness: parsing inverts encoding.
// ---------------------------------------------------------------------------
/// Within an encoded string body, the parser recovers exactly the content
/// that was escaped, and stops just past the closing quote.
proof fn lemma_parse_str_body_complete(s: Seq<char>, i: int, content: Seq<char>)
    requires
        0 <= i,
        i + esc(content).len() + 1 <= s.len(),
        s.subrange(i, i + esc(content).len()) == esc(content),
        s[i + esc(content).len()] == '"',
    ensures
        parse_str_body(s, i) == Some((content, i + esc(content).len() + 1)),
    decreases content.len(),
{
    let e = esc(content);
    assert forall|q: int| 0 <= q < e.len() implies s[i + q] == e[q] by {
        assert(s.subrange(i, i + e.len())[q] == e[q]);
    }
    if content.len() == 0 {
        assert(e =~= Seq::<char>::empty());
        assert(s[i] == '"');
    } else {
        let c0 = content[0];
        let rest = content.drop_first();
        let e0 = esc_char(c0);
        let er = esc(rest);
        assert(e == e0 + er);
        if c0 == '"' || c0 == '\\' {
            assert(e[0] == '\\' && e[1] == c0);
            assert(s[i] == '\\');
            assert(s[i + 1] == c0);
            assert(s.subrange(i + 2, i + 2 + er.len()) =~= er) by {
                assert forall|q: int| 0 <= q < er.len() implies s[i + 2 + q] == er[q] by {
                    assert(e[2 + q] == er[q]);
                }
            }
            assert(s[i + 2 + er.len()] == '"');
            lemma_parse_str_body_complete(s, i + 2, rest);
            assert(seq![s[i + 1]] + rest =~= content);
        } else {
            assert(e[0] == c0);
            assert(s[i] == c0);
            assert(s.subrange(i + 1, i + 1 + er.len()) =~= er) by {
                assert forall|q: int| 0 <= q < er.len() implies s[i + 1 + q] == er[q] by {
                    assert(e[1 + q] == er[q]);
                }
            }
            assert(s[i + 1 + er.len()] == '"');
            lemma_parse_str_body_complete(s, i + 1, rest);
            assert(seq![s[i]] + rest =~= content);
        }
    }
}

/// A quoted identifier parses back to exactly that identifier.
proof fn lemma_parse_quoted_complete(s: Seq<char>, i: int, x: Seq<char>)
    requires
        0 <= i,
        i + quoted(x).len() <= s.len(),
        s.subrange(i, i + quoted(x).len()) == quoted(x),
    ensures
        parse_quoted(s, i) == Some((x, i + quoted(x).len())),
{
    let q = quoted(x);
    let e = esc(x);
    assert forall|k: int| 0 <= k < q.len() implies s[i + k] == q[k] by {
        assert(s.subrange(i, i + q.len())[k] == q[k]);
    }
    assert(q[0] == '"');
    assert(s[i] == '"');
    assert(s.subrange(i + 1, i + 1 + e.len()) =~= e) by {
        assert forall|k: int| 0 <= k < e.len() implies s[i + 1 + k] == e[k] by {
            assert(q[1 + k] == e[k]);
        }
    }
    assert(q[1 + e.len() as int] == '"');
    assert(s[i + 1 + e.len()] == '"');
    lemma_parse_str_body_complete(s, i + 1, x);
}

/// A non-empty encoded string array, followed by its closing bracket,
/// parses back to exactly its list.
proof fn lemma_parse_str_elems_complete(s: Seq<char>, i: int, l: Seq<Seq<char>>)
    requires
        l.len() >= 1,
        0 <= i,
        i + str_items_enc(l).len() + 1 <= s.len(),
        s.subrange(i, i + str_items_enc(l).len()) == str_items_enc(l),
        s[i + str_items_enc(l).len()] == ']',
    ensures
        parse_str_elems(s, i) == Some((l, i + str_items_enc(l).len() + 1)),
    decreases l.len(),
{
    let e = str_items_enc(l);
    assert forall|k: int| 0 <= k < e.len() implies s[i + k] == e[k] by {
        assert(s.subrange(i, i + e.len())[k] == e[k]);
    }
    let q0 = quoted(l[0]);
    if l.len() == 1 {
        assert(e == q0);
        lemma_parse_quoted_complete(s, i, l[0]);
        assert(s[i + q0.len()] == ']');
        assert(seq![l[0]] =~= l);
    } else {
        let rest = l.drop_first();
        let er = str_items_enc(rest);
        assert(e == q0 + seq![','] + er);
        assert(s.subrange(i, i + q0.len()) =~= q0) by {
            assert forall|k: int| 0 <= k < q0.len() implies s[i + k] == q0[k] by {
                assert(e[k] == q0[k]);
            }
        }
        lemma_parse_quoted_complete(s, i, l[0]);
        let j = i + q0.len();
        assert(e[q0.len() as int] == ',');
        assert(s[j] == ',');
        assert(s.subrange(j + 1, j + 1 + er.len()) =~= er) by {
            assert forall|k: int| 0 <= k < er.len() implies s[j + 1 + k] == er[k] by {
                assert(e[q0.len() + 1 + k] == er[k]);
            }
        }
        assert(s[j + 1 + er.len()] == ']');
        lemma_parse_str_elems_complete(s, j + 1, rest);
        assert(seq![l[0]] + rest =~= l);
    }
}

/// Every character of a decimal digit run is a digit, and the run is
/// non-empty.
proof fn lemma_dec_digits_are_digits(n: int)
    requires
        n >= 0,
    ensures
        dec_digits(n).len() >= 1,
        forall|k: int| 0 <= k < dec_digits(n).len() ==> is_digit(#[trigger] dec_digits(n)[k]),
    decreases n,
{
    if n < 10 {
        assert(is_digit(digit_char(n)));
    } else {
        lemma_dec_digits_are_digits(n / 10);
        assert(is_digit(digit_char(n % 10)));
    }
}

/// A run of digits with a non-digit right after it ends exactly there.
proof fn lemma_digit_run_exact(s: Seq<char>, i: int, j: int)
    requires
        0 <= i <= j <= s.len(),
        forall|k: int| i <= k < j ==> is_digit(#[trigger] s[k]),
        j == s.len() || !is_digit(s[j]),
    ensures
        digit_run_end(s, i) == j,
    decreases j - i,
{
    if i < j {
        assert(is_digit(s[i]));
        lemma_digit_run_exact(s, i + 1, j);
    }
}

/// The digits written for a non-negative number read back as that number.
proof fn lemma_digits_val_of_dec(s: Seq<char>, i: int, n: int)
    requires
        n >= 0,
        0 <= i,
        i + dec_digits(n).len() <= s.len(),
        s.subrange(i, i + dec_digits(n).len()) == dec_digits(n),
    ensures
        digits_val(s, i, i + dec_digits(n).len()) == n,
    decreases n,
{
    let d = dec_digits(n);
    assert forall|k: int| 0 <= k < d.len() implies s[i + k] == d[k] by {
        assert(s.subrange(i, i + d.len())[k] == d[k]);
    }
    if n < 10 {
        assert(d == seq![digit_char(n)]);
        assert(d[0] == digit_char(n));
        assert(s[i + 0] == d[0]);
        assert(s[i] == digit_char(n));
        assert(digit_val(digit_char(n)) == n);
        assert(digits_val(s, i, i + 1) == digits_val(s, i, i) * 10 + digit_val(s[i]));
    } else {
        let dh = dec_digits(n / 10);
        assert(d == dh.push(digit_char(n % 10)));
        assert(s.subrange(i, i + dh.len()) =~= dh) by {
            assert forall|k: int| 0 <= k < dh.len() implies s[i + k] == dh[k] by {
                assert(d[k] == dh[k]);
            }
        }
        lemma_digits_val_of_dec(s, i, n / 10);
        assert(d[d.len() - 1] == digit_char(n % 10));
        assert(s[i + d.len() - 1] == digit_char(n % 10));
        assert(digit_val(digit_char(n % 10)) == n % 10);
        assert(digits_val(s, i, i + d.len()) == digits_val(s, i, i + d.len() - 1) * 10 + digit_val(
            s[i + d.len() - 1],
        ));
        assert(digits_val(s, i, i + d.len()) == (n / 10) * 10 + n % 10);
    }
}

/// The decimal text written for a machine integer, followed by a
/// non-digit, parses back to exactly that integer.
proof fn lemma_parse_i64_complete(s: Seq<char>, i: int, v: i64)
    requires
        0 <= i,
        i + int_dec(v as int).len() < s.len(),
        s.subrange(i, i + int_dec(v as int).len()) == int_dec(v as int),
        !is_digit(s[i + int_dec(v as int).len()]),
    ensures
        parse_i64(s, i) == Some((v, i + int_dec(v as int).len())),
{
    let e = int_dec(v as int);
    assert forall|k: int| 0 <= k < e.len() implies s[i + k] == e[k] by {
        assert(s.subrange(i, i + e.len())[k] == e[k]);
    }
    if v >= 0 {
        let d = dec_digits(v as int);
        assert(e == d);
        lemma_dec_digits_are_digits(v as int);
        assert forall|k: int| i <= k < i + d.len() implies is_digit(#[trigger] s[k]) by {
            assert(s[k] == d[k - i]);
        }
        assert(is_digit(s[i]));
        assert(s[i] as u32 != 45);
        assert(s[i] != '-');
        lemma_digit_run_exact(s, i, i + d.len());
        assert(s.subrange(i, i + d.len()) =~= d);
        lemma_digits_val_of_dec(s, i, v as int);
    } else {
        let m = -(v as int);
        let d = dec_digits(m);
        assert(e == seq!['-'] + d);
        assert(e[0] == '-');
        assert(s[i] == '-');
        lemma_dec_digits_are_digits(m);
        assert forall|k: int| i + 1 <= k < i + 1 + d.len() implies is_digit(#[trigger] s[k]) by {
            assert(e[k - i] == d[k - i - 1]);
            assert(s[k] == d[k - i - 1]);
        }
        lemma_digit_run_exact(s, i + 1, i + 1 + d.len());
        assert(s.subrange(i + 1, i + 1 + d.len()) =~= d) by {
            assert forall|k: int| 0 <= k < d.len() implies s[i + 1 + k] == d[k] by {
                assert(e[1 + k] == d[k]);
            }
        }
        lemma_digits_val_of_dec(s, i + 1, m);
        assert(digit_run_end(s, i + 1) == i + 1 + d.len());
        assert(digit_run_end(s, i + 1) != i + 1);
        assert(-digits_val(s, i + 1, i + 1 + d.len()) == v as int);
    }
}

/// A non-empty encoded integer array, followed by its closing bracket,
/// parses back to exactly its list.
proof fn lemma_parse_int_elems_complete(s: Seq<char>, i: int, l: Seq<i64>)
    requires
        l.len() >= 1,
        0 <= i,
        i + int_items_enc(l).len() + 1 <= s.len(),
        s.subrange(i, i + int_items_enc(l).len()) == int_items_enc(l),
        s[i + int_items_enc(l).len()] == ']',
        !is_digit(s[i + int_items_enc(l).len()]),
    ensures
        parse_int_elems(s, i) == Some((l, i + int_items_enc(l).len() + 1)),
    decreases l.len(),
{
    let e = int_items_enc(l);
    assert forall|k: int| 0 <= k < e.len() implies s[i + k] == e[k] by {
        assert(s.subrange(i, i + e.len())[k] == e[k]);
    }
    let d0 = int_dec(l[0] as int);
    if l.len() == 1 {
        assert(e == d0);
        lemma_parse_i64_complete(s, i, l[0]);
        assert(s[i + d0.len()] == ']');
        assert(seq![l[0]] =~= l);
    } else {
        let rest = l.drop_first();
        let er = int_items_enc(rest);
        assert(e == d0 + seq![','] + er);
        assert(s.subrange(i, i + d0.len()) =~= d0) by {
            assert forall|k: int| 0 <= k < d0.len() implies s[i + k] == d0[k] by {
                assert(e[k] == d0[k]);
            }
        }
        assert(e[d0.len() as int] == ',');
        assert(s[i + d0.len()] == ',');
        assert(!is_digit(s[i + d0.len()])) by {
            assert(s[i + d0.len()] as u32 == 44);
        }
        lemma_parse_i64_complete(s, i, l[0]);
        let j = i + d0.len();
        assert(s.subrange(j + 1, j + 1 + er.len()) =~= er) by {
            assert forall|k: int| 0 <= k < er.len() implies s[j + 1 + k] == er[k] by {
                assert(e[d0.len() + 1 + k] == er[k]);
            }
        }
        assert(s[j + 1 + er.len()] == ']');
        lemma_parse_int_elems_complete(s, j + 1, rest);
        assert(seq![l[0]] + rest =~= l);
    }
}

/// The first character of a non-empty encoded string array is a quote.
proof fn lemma_str_items_first(l: Seq<Seq<char>>)
    requires
        l.len() >= 1,
    ensures
        str_items_enc(l).len() >= 1,
        str_items_enc(l)[0] == '"',
{
    let q0 = quoted(l[0]);
    assert(q0[0] == '"');
    if l.len() == 1 {
        assert(str_items_enc(l) == q0);
    } else {
        assert(str_items_enc(l) == q0 + seq![','] + str_items_enc(l.drop_first()));
        assert(str_items_enc(l)[0] == q0[0]);
    }
}

/// The first character of a non-empty encoded integer array is a minus
/// sign or a digit — never a bracket.
proof fn lemma_int_items_first(l: Seq<i64>)
    requires
        l.len() >= 1,
    ensures
        int_items_enc(l).len() >= 1,
        int_items_enc(l)[0] != ']',
{
    let d0 = int_dec(l[0] as int);
    lemma_dec_digits_are_digits(if l[0] < 0 { -(l[0] as int) } else { l[0] as int });
    assert(d0.len() >= 1);
    if l[0] < 0 {
        assert(d0[0] == '-');
        assert(d0[0] as u32 == 45);
    } else {
        assert(d0[0] == dec_digits(l[0] as int)[0]);
        assert(is_digit(d0[0]));
    }
    assert(d0[0] as u32 != 93);
    assert(']' as u32 == 93);
    assert(d0[0] != ']');
    if l.len() == 1 {
        assert(int_items_enc(l) == d0);
    } else {
        assert(int_items_enc(l) == d0 + seq![','] + int_items_enc(l.drop_first()));
        assert(int_items_enc(l)[0] == d0[0]);
    }
}

/// Round trip: the snapshot text written for any two identifier lists
/// parses back to exactly those lists. Together with the contracts of the
/// encoder and the parser, a flushed ledger read back after a restart
/// holds the same identifiers.
pub proof fn lemma_snapshot_round_trip(bl: Seq<Seq<char>>, bg: Seq<i64>)
    ensures
        parse_snapshot(snapshot_spec(bl, bg)) == Some((bl, bg)),
{
    reveal_strlit("{\"posted_blogs\":[");
    reveal_strlit("],\"posted_bug_ids\":[");
    reveal_strlit(",\"posted_bug_ids\":[");
    reveal_strlit("]}");
    let lit1 = "{\"posted_blogs\":["@;
    let mid = "],\"posted_bug_ids\":["@;
    let lit2 = ",\"posted_bug_ids\":["@;
    let end = "]}"@;
    let e1 = str_items_enc(bl);
    let e2 = int_items_enc(bg);
    let s = snapshot_spec(bl, bg);
    assert(lit1.len() == 17);
    assert(mid.len() == 20);
    assert(lit2.len() == 19);
    assert(end.len() == 2);
    assert(s == lit1 + e1 + mid + e2 + end);
    let m0 = 17 + e1.len() as int;
    let p2 = m0 + 20;
    let i3 = p2 + e2.len() as int;
    assert(s.len() == i3 + 2);
    assert forall|q: int| 0 <= q < 17 implies s[q] == lit1[q] by {}
    assert forall|q: int| 0 <= q < e1.len() implies s[17 + q] == e1[q] by {}
    assert forall|q: int| 0 <= q < 20 implies s[m0 + q] == mid[q] by {}
    assert forall|q: int| 0 <= q < e2.len() implies s[p2 + q] == e2[q] by {}
    assert(s[i3] == end[0]);
    assert(s[i3 + 1] == end[1]);
    assert(end[0] == ']' && end[1] == '}');
    assert(mid[0] == ']');
    // the opening literal stands at the front
    assert(s.subrange(0, 17) =~= lit1);
    assert(has_lit(s, 0, lit1));
    // the string array parses to bl, ending just past its bracket
    if bl.len() == 0 {
        assert(e1.len() == 0);
        assert(s[17] == mid[0]);
        assert(s[17] == ']');
    } else {
        lemma_str_items_first(bl);
        assert(s[17] == e1[0]);
        assert(s[17] == '"');
        assert(s[17] != ']');
        assert(s.subrange(17, 17 + e1.len() as int) =~= e1);
        assert(s[17 + e1.len() as int] == ']');
        lemma_parse_str_elems_complete(s, 17, bl);
        assert(parse_str_elems(s, 17) == Some((bl, m0 + 1)));
    }
    // the middle literal follows the bracket
    assert(s.subrange(m0 + 1, m0 + 1 + 19) =~= lit2) by {
        assert forall|q: int| 0 <= q < 19 implies s[m0 + 1 + q] == lit2[q] by {
            assert(s[m0 + 1 + q] == mid[1 + q]);
            assert(mid[1 + q] == lit2[q]);
        }
    }
    assert(has_lit(s, m0 + 1, lit2));
    // the integer array parses to bg, ending just past its bracket
    if bg.len() == 0 {
        assert(e2.len() == 0);
        assert(s[p2] == end[0]);
        assert(s[p2] == ']');
    } else {
        lemma_int_items_first(bg);
        assert(s[p2] == e2[0]);
        assert(s[p2] != ']');
        assert(s.subrange(p2, p2 + e2.len() as int) =~= e2);
        assert(s[p2 + e2.len() as int] == ']');
        assert(!is_digit(s[p2 + e2.len() as int])) by {
            assert(s[p2 + e2.len() as int] as u32 == 93);
        }
        lemma_parse_int_elems_complete(s, p2, bg);
        assert(parse_int_elems(s, p2) == Some((bg, i3 + 1)));
    }
    // the closing brace is the last character
    assert(s[i3 + 1] == '}');
}

/// Extending a prefix of the string list by one identifier extends its
/// membership set by that identifier.
pub proof fn lemma_str_set_take_step(l: Seq<Seq<char>>, k: int)
    requires
        0 <= k < l.len(),
    ensures
        str_set(l.take(k + 1)) == str_set(l.take(k)).insert(l[k]),
{
    let a = l.take(k + 1);
    let b = l.take(k);
    assert forall|x: Seq<char>| str_set(a).contains(x) implies str_set(b).insert(l[k]).contains(
        x,
    ) by {
        let i = choose|i: int| 0 <= i < a.len() && a[i] == x;
        if i < k {
            assert(0 <= i < b.len() && b[i] == x);
        } else {
            assert(a[i] == l[k]);
        }
    }
    assert forall|x: Seq<char>| str_set(b).insert(l[k]).contains(x) implies str_set(a).contains(
        x,
    ) by {
        if x == l[k] {
            assert(0 <= k < a.len() && a[k] == x);
        } else {
            let i = choose|i: int| 0 <= i < b.len() && b[i] == x;
            assert(0 <= i < a.len() && a[i] == x);
        }
    }
    assert(str_set(a) =~= str_set(b).insert(l[k]));
}

/// The same, for the integer list.
pub proof fn lemma_int_set_take_step(l: Seq<i64>, k: int)
    requires
        0 <= k < l.len(),
    ensures
        int_set(l.take(k + 1)) == int_set(l.take(k)).insert(l[k] as int),
{
    let a = l.take(k + 1);
    let b = l.take(k);
    assert forall|x: int| int_set(a).contains(x) implies int_set(b).insert(
        l[k] as int,
    ).contains(x) by {
        let i = choose|i: int| 0 <= i < a.len() && a[i] as int == x;
        if i < k {
            assert(0 <= i < b.len() && b[i] as int == x);
        } else {
            assert(a[i] == l[k]);
        }
    }
    assert forall|x: int| int_set(b).insert(l[k] as int).contains(x) implies int_set(a).contains(
        x,
    ) by {
        if x == l[k] as int {
            assert(0 <= k < a.len() && a[k] as int == x);
        } else {
            let i = choose|i: int| 0 <= i < b.len() && b[i] as int == x;
            assert(0 <= i < a.len() && a[i] as int == x);
        }
    }
    assert(int_set(a) =~= int_set(b).insert(l[k] as int));
}

} // verus!
