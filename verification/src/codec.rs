//! The persisted document format.
//!
//! The whole list is stored as one textual document of the shape
//! `{"items":[{"description":"...","status":true},...]}`. The field names
//! `description` and `status` are part of the format and must not change.
//! `document_text` gives the exact text the library writes for a list, and
//! `parse_document` says which documents decode, and to what. Decoding is
//! deliberately more liberal than encoding: it accepts whitespace between
//! tokens and the usual short and `\u`-style string escapes, so documents
//! written by other producers of this format read back correctly.

use vstd::prelude::*;
use vstd::string::StrSliceExecFns;
use crate::todo::{ItemModel, TodoError, TodoItem, TodoList};

verus! {

// ---------------------------------------------------------------------------
// The exact text the library writes.
// ---------------------------------------------------------------------------

/// The hexadecimal digit character for a value below 16.
pub open spec fn hex_digit_char(n: int) -> char {
    if n == 0 {
        '0'
    } else if n == 1 {
        '1'
    } else if n == 2 {
        '2'
    } else if n == 3 {
        '3'
    } else if n == 4 {
        '4'
    } else if n == 5 {
        '5'
    } else if n == 6 {
        '6'
    } else if n == 7 {
        '7'
    } else if n == 8 {
        '8'
    } else if n == 9 {
        '9'
    } else if n == 10 {
        'a'
    } else if n == 11 {
        'b'
    } else if n == 12 {
        'c'
    } else if n == 13 {
        'd'
    } else if n == 14 {
        'e'
    } else {
        'f'
    }
}

/// How one description character is written: quote and backslash get a
/// backslash escape, control characters a `\u00xx` escape, everything else
/// stands as itself.
pub open spec fn escape_char(c: char) -> Seq<char> {
    if c == '"' {
        seq!['\\', '"']
    } else if c == '\\' {
        seq!['\\', '\\']
    } else if (c as u32) < 0x20 {
        seq![
            '\\',
            'u',
            '0',
            '0',
            hex_digit_char(((c as u32) / 16) as int),
            hex_digit_char(((c as u32) % 16) as int),
        ]
    } else {
        seq![c]
    }
}

/// A whole description, character by character.
pub open spec fn escape_string(s: Seq<char>) -> Seq<char>
    decreases s.len(),
{
    if s.len() == 0 {
        Seq::empty()
    } else {
        escape_char(s[0]) + escape_string(s.drop_first())
    }
}

pub open spec fn doc_head() -> Seq<char> {
    seq!['{', '"', 'i', 't', 'e', 'm', 's', '"', ':', '[']
}

pub open spec fn doc_tail() -> Seq<char> {
    seq![']', '}']
}

pub open spec fn item_head() -> Seq<char> {
    seq!['{', '"', 'd', 'e', 's', 'c', 'r', 'i', 'p', 't', 'i', 'o', 'n', '"', ':', '"']
}

pub open spec fn item_mid() -> Seq<char> {
    seq!['"', ',', '"', 's', 't', 'a', 't', 'u', 's', '"', ':']
}

pub open spec fn bool_text(b: bool) -> Seq<char> {
    if b {
        seq!['t', 'r', 'u', 'e']
    } else {
        seq!['f', 'a', 'l', 's', 'e']
    }
}

/// The text written for one item.
pub open spec fn item_text(it: ItemModel) -> Seq<char> {
    item_head() + escape_string(it.description) + item_mid() + bool_text(it.status) + seq!['}']
}

/// The comma-separated texts of a list of items.
pub open spec fn items_text(s: Seq<ItemModel>) -> Seq<char>
    decreases s.len(),
{
    if s.len() == 0 {
        Seq::empty()
    } else if s.len() == 1 {
        item_text(s[0])
    } else {
        item_text(s[0]) + seq![','] + items_text(s.drop_first())
    }
}

/// The exact persisted document for a list.
pub open spec fn document_text(s: Seq<ItemModel>) -> Seq<char> {
    doc_head() + items_text(s) + doc_tail()
}

// ---------------------------------------------------------------------------
// Building the document text.
// ---------------------------------------------------------------------------

/// Appending an item to a list extends its comma-separated text at the end.
proof fn lemma_items_text_snoc(pre: Seq<ItemModel>, x: ItemModel)
    ensures
        items_text(pre.push(x)) == if pre.len() == 0 {
            item_text(x)
        } else {
            items_text(pre) + seq![','] + item_text(x)
        },
    decreases pre.len(),
{
    let whole = pre.push(x);
    if pre.len() == 0 {
        assert(whole.len() == 1);
        assert(whole[0] == x);
    } else {
        assert(whole[0] == pre[0]);
        assert(whole.drop_first() =~= pre.drop_first().push(x));
        lemma_items_text_snoc(pre.drop_first(), x);
        if pre.len() == 1 {
            assert(items_text(whole) =~= items_text(pre) + seq![','] + item_text(x));
        } else {
            assert(items_text(whole) =~= items_text(pre) + seq![','] + item_text(x));
        }
    }
}

/// The hexadecimal digit character, executable.
fn hex_digit_exec(v: u32) -> (r: char)
    requires
        v < 16,
    ensures
        r == hex_digit_char(v as int),
{
    if v == 0 {
        '0'
    } else if v == 1 {
        '1'
    } else if v == 2 {
        '2'
    } else if v == 3 {
        '3'
    } else if v == 4 {
        '4'
    } else if v == 5 {
        '5'
    } else if v == 6 {
        '6'
    } else if v == 7 {
        '7'
    } else if v == 8 {
        '8'
    } else if v == 9 {
        '9'
    } else if v == 10 {
        'a'
    } else if v == 11 {
        'b'
    } else if v == 12 {
        'c'
    } else if v == 13 {
        'd'
    } else if v == 14 {
        'e'
    } else {
        'f'
    }
}

/// Appends every character of `lit` to `out`.
fn append_lit(out: &mut Vec<char>, lit: &str)
    ensures
        final(out)@ == old(out)@ + lit@,
{
    let n = lit.unicode_len();
    let mut k: usize = 0;
    while k < n
        invariant
            n == lit@.len(),
            k <= n,
            out@ == old(out)@ + lit@.take(k as int),
        decreases n - k,
    {
        out.push(lit.get_char(k));
        proof {
            assert(out@ =~= old(out)@ + lit@.take(k + 1));
        }
        k = k + 1;
    }
    proof {
        assert(old(out)@ + lit@.take(n as int) =~= old(out)@ + lit@);
    }
}

/// Appends the escaped form of one description to `out`.
fn append_escaped(out: &mut Vec<char>, s: &String)
    ensures
        final(out)@ == old(out)@ + escape_string(s@),
{
    let n = s.as_str().unicode_len();
    let mut i: usize = 0;
    while i < n
        invariant
            n == s@.len(),
            i <= n,
            out@ == old(out)@ + escape_string(s@.take(i as int)),
        decreases n - i,
    {
        proof {
            lemma_escape_string_append(s@.take(i as int), seq![s@[i as int]]);
            assert(s@.take(i + 1) =~= s@.take(i as int) + seq![s@[i as int]]);
            let single = seq![s@[i as int]];
            assert(single.len() == 1 && single[0] == s@[i as int]);
            assert(single.drop_first() =~= Seq::<char>::empty());
            assert(escape_string(Seq::<char>::empty()) =~= Seq::<char>::empty());
            assert(escape_string(single) == escape_char(single[0]) + escape_string(
                single.drop_first(),
            ));
            assert(escape_string(single) =~= escape_char(s@[i as int]));
        }
        let c = s.as_str().get_char(i);
        if c == '"' {
            out.push('\\');
            out.push('"');
            proof {
                assert(out@ =~= old(out)@ + escape_string(s@.take(i + 1)));
            }
        } else if c == '\\' {
            out.push('\\');
            out.push('\\');
            proof {
                assert(out@ =~= old(out)@ + escape_string(s@.take(i + 1)));
            }
        } else if (c as u32) < 0x20 {
            let v = c as u32;
            out.push('\\');
            out.push('u');
            out.push('0');
            out.push('0');
            out.push(hex_digit_exec(v / 16));
            out.push(hex_digit_exec(v % 16));
            proof {
                assert(out@ =~= old(out)@ + escape_string(s@.take(i + 1)));
            }
        } else {
            out.push(c);
            proof {
                assert(out@ =~= old(out)@ + escape_string(s@.take(i + 1)));
            }
        }
        i = i + 1;
    }
    proof {
        assert(s@.take(n as int) =~= s@);
    }
}

/// Splitting a description splits its escaped form.
proof fn lemma_escape_string_append(a: Seq<char>, b: Seq<char>)
    ensures
        escape_string(a + b) == escape_string(a) + escape_string(b),
    decreases a.len(),
{
    if a.len() == 0 {
        assert(a + b =~= b);
        assert(escape_string(a) + escape_string(b) =~= escape_string(b));
    } else {
        assert((a + b).len() > 0);
        assert((a + b)[0] == a[0]);
        assert((a + b).drop_first() =~= a.drop_first() + b);
        lemma_escape_string_append(a.drop_first(), b);
        assert(escape_string(a + b) =~= escape_string(a) + escape_string(b));
    }
}

/// Appends the text of one item to `out`.
fn append_item_text(out: &mut Vec<char>, desc: &String, status: bool)
    ensures
        final(out)@ == old(out)@ + item_text(ItemModel { description: desc@, status }),
{
    append_lit(out, "{\"description\":\"");
    proof {
        reveal_strlit("{\"description\":\"");
        assert("{\"description\":\""@ =~= item_head());
    }
    append_escaped(out, desc);
    append_lit(out, "\",\"status\":");
    proof {
        reveal_strlit("\",\"status\":");
        assert("\",\"status\":"@ =~= item_mid());
    }
    if status {
        append_lit(out, "true");
        proof {
            reveal_strlit("true");
            assert("true"@ =~= bool_text(true));
        }
    } else {
        append_lit(out, "false");
        proof {
            reveal_strlit("false");
            assert("false"@ =~= bool_text(false));
        }
    }
    out.push('}');
    proof {
        assert(out@ =~= old(out)@ + item_text(ItemModel { description: desc@, status }));
    }
}

/// Relies on `String`'s `FromIterator<char>` implementation: collecting an
/// iterator of characters builds the string of exactly those characters, in
/// order.
#[verifier::external_body]
fn string_from_chars(chars: Vec<char>) -> (r: String)
    ensures
        r@ == chars@,
{
    chars.into_iter().collect()
}

// ---------------------------------------------------------------------------
// Reading a document back.
// ---------------------------------------------------------------------------

/// The whitespace that may stand between tokens.
pub open spec fn is_ws(c: char) -> bool {
    c == ' ' || c == '\n' || c == '\t' || c == '\r'
}

/// The first position at or after `i` that holds no whitespace.
pub open spec fn skip_ws(s: Seq<char>, i: int) -> int
    decreases s.len() - i,
{
    if 0 <= i && i < s.len() && is_ws(s[i]) {
        skip_ws(s, i + 1)
    } else {
        i
    }
}

/// The value of a hexadecimal digit character, or -1.
pub open spec fn hex_val(c: char) -> int {
    if c == '0' {
        0
    } else if c == '1' {
        1
    } else if c == '2' {
        2
    } else if c == '3' {
        3
    } else if c == '4' {
        4
    } else if c == '5' {
        5
    } else if c == '6' {
        6
    } else if c == '7' {
        7
    } else if c == '8' {
        8
    } else if c == '9' {
        9
    } else if c == 'a' || c == 'A' {
        10
    } else if c == 'b' || c == 'B' {
        11
    } else if c == 'c' || c == 'C' {
        12
    } else if c == 'd' || c == 'D' {
        13
    } else if c == 'e' || c == 'E' {
        14
    } else if c == 'f' || c == 'F' {
        15
    } else {
        -1
    }
}

/// What a single-character escape stands for.
pub open spec fn unescape_short(c: char) -> Option<char> {
    if c == '"' {
        Some('"')
    } else if c == '\\' {
        Some('\\')
    } else if c == '/' {
        Some('/')
    } else if c == 'b' {
        Some('\u{0008}')
    } else if c == 'f' {
        Some('\u{000C}')
    } else if c == 'n' {
        Some('\n')
    } else if c == 'r' {
        Some('\r')
    } else if c == 't' {
        Some('\t')
    } else {
        None
    }
}

/// A code a `\u` escape may carry: any Unicode scalar value.
pub open spec fn valid_code(v: u32) -> bool {
    v < 0xD800 || (0xE000 <= v && v <= 0x10FFFF)
}

/// One expected character at `i`.
pub open spec fn expect(s: Seq<char>, i: int, c: char) -> Option<int> {
    if 0 <= i && i < s.len() && s[i] == c {
        Some(i + 1)
    } else {
        None
    }
}

/// An exact run of expected characters at `i`.
pub open spec fn parse_lit(s: Seq<char>, i: int, lit: Seq<char>) -> Option<int> {
    if 0 <= i && i + lit.len() <= s.len() && s.subrange(i, i + lit.len()) == lit {
        Some(i + lit.len())
    } else {
        None
    }
}

/// The characters of a quoted string, read from just after the opening quote
/// up to and past the closing quote, undoing escapes. Unescaped control
/// characters, bad escapes and a missing closing quote do not parse.
pub open spec fn parse_string_body(s: Seq<char>, i: int) -> Option<(Seq<char>, int)>
    decreases s.len() - i,
{
    if i < 0 || i >= s.len() {
        None
    } else if s[i] == '"' {
        Some((Seq::empty(), i + 1))
    } else if s[i] == '\\' {
        if i + 1 >= s.len() {
            None
        } else if s[i + 1] == 'u' {
            if i + 6 <= s.len() && hex_val(s[i + 2]) >= 0 && hex_val(s[i + 3]) >= 0 && hex_val(
                s[i + 4],
            ) >= 0 && hex_val(s[i + 5]) >= 0 {
                let v = (hex_val(s[i + 2]) * 4096 + hex_val(s[i + 3]) * 256 + hex_val(s[i + 4]) * 16
                    + hex_val(s[i + 5])) as u32;
                if valid_code(v) {
                    match parse_string_body(s, i + 6) {
                        Some((d, j)) => Some((seq![v as char] + d, j)),
                        None => None,
                    }
                } else {
                    None
                }
            } else {
                None
            }
        } else {
            match unescape_short(s[i + 1]) {
                Some(c) => match parse_string_body(s, i + 2) {
                    Some((d, j)) => Some((seq![c] + d, j)),
                    None => None,
                },
                None => None,
            }
        }
    } else if (s[i] as u32) < 0x20 {
        None
    } else {
        match parse_string_body(s, i + 1) {
            Some((d, j)) => Some((seq![s[i]] + d, j)),
            None => None,
        }
    }
}

pub open spec fn desc_key() -> Seq<char> {
    seq!['"', 'd', 'e', 's', 'c', 'r', 'i', 'p', 't', 'i', 'o', 'n', '"']
}

pub open spec fn status_key() -> Seq<char> {
    seq!['"', 's', 't', 'a', 't', 'u', 's', '"']
}

pub open spec fn items_key() -> Seq<char> {
    seq!['"', 'i', 't', 'e', 'm', 's', '"']
}

/// `true` or `false` at `i`.
pub open spec fn parse_bool(s: Seq<char>, i: int) -> Option<(bool, int)> {
    if parse_lit(s, i, bool_text(true)) is Some {
        Some((true, i + 4))
    } else if parse_lit(s, i, bool_text(false)) is Some {
        Some((false, i + 5))
    } else {
        None
    }
}

/// One item object at `i` (leading whitespace allowed): the `description`
/// field and then the `status` field, in that order.
pub open spec fn parse_item(s: Seq<char>, i: int) -> Option<(ItemModel, int)> {
    match expect(s, skip_ws(s, i), '{') {
        None => None,
        Some(i2) => match parse_lit(s, skip_ws(s, i2), desc_key()) {
            None => None,
            Some(i4) => match expect(s, skip_ws(s, i4), ':') {
                None => None,
                Some(i6) => match expect(s, skip_ws(s, i6), '"') {
                    None => None,
                    Some(i8) => match parse_string_body(s, i8) {
                        None => None,
                        Some((d, i9)) => match expect(s, skip_ws(s, i9), ',') {
                            None => None,
                            Some(i11) => match parse_lit(s, skip_ws(s, i11), status_key()) {
                                None => None,
                                Some(i13) => match expect(s, skip_ws(s, i13), ':') {
                                    None => None,
                                    Some(i15) => match parse_bool(s, skip_ws(s, i15)) {
                                        None => None,
                                        Some((b, i17)) => match expect(s, skip_ws(s, i17), '}') {
                                            None => None,
                                            Some(i19) => Some(
                                                (ItemModel { description: d, status: b }, i19),
                                            ),
                                        },
                                    },
                                },
                            },
                        },
                    },
                },
            },
        },
    }
}

/// One or more comma-separated items starting at `i`; ends just after the
/// last item.
pub open spec fn parse_items(s: Seq<char>, i: int) -> Option<(Seq<ItemModel>, int)>
    decreases s.len() - i,
        via parse_items_decreases
{
    match parse_item(s, i) {
        None => None,
        Some((it, j)) => {
            let k = skip_ws(s, j);
            if 0 <= k && k < s.len() && s[k] == ',' {
                match parse_items(s, k + 1) {
                    None => None,
                    Some((rest, m)) => Some((seq![it] + rest, m)),
                }
            } else {
                Some((seq![it], j))
            }
        },
    }
}

#[via_fn]
proof fn parse_items_decreases(s: Seq<char>, i: int) {
    match parse_item(s, i) {
        None => {},
        Some((it, j)) => {
            lemma_parse_item_advances(s, i);
            lemma_skip_ws_ge(s, j);
            lemma_skip_ws_le(s, j);
        },
    }
}

/// The closing brace and nothing but whitespace after it.
pub open spec fn finish_document(s: Seq<char>, i: int, items: Seq<ItemModel>) -> Option<
    Seq<ItemModel>,
> {
    match expect(s, skip_ws(s, i), '}') {
        None => None,
        Some(k) => if skip_ws(s, k) == s.len() {
            Some(items)
        } else {
            None
        },
    }
}

/// The whole document: which texts decode, and to which list. Whitespace may
/// stand between tokens; the two fields of an item must come in order.
pub open spec fn parse_document(s: Seq<char>) -> Option<Seq<ItemModel>> {
    match expect(s, skip_ws(s, 0), '{') {
        None => None,
        Some(i2) => match parse_lit(s, skip_ws(s, i2), items_key()) {
            None => None,
            Some(i4) => match expect(s, skip_ws(s, i4), ':') {
                None => None,
                Some(i6) => match expect(s, skip_ws(s, i6), '[') {
                    None => None,
                    Some(i8) => {
                        let i9 = skip_ws(s, i8);
                        if 0 <= i9 && i9 < s.len() && s[i9] == ']' {
                            finish_document(s, i9 + 1, Seq::empty())
                        } else {
                            match parse_items(s, i8) {
                                None => None,
                                Some((items, i10)) => match expect(s, skip_ws(s, i10), ']') {
                                    None => None,
                                    Some(i12) => finish_document(s, i12, items),
                                },
                            }
                        }
                    },
                },
            },
        },
    }
}

// ---------------------------------------------------------------------------
// Bounds of the parsing functions.
// ---------------------------------------------------------------------------

proof fn lemma_skip_ws_ge(s: Seq<char>, i: int)
    ensures
        skip_ws(s, i) >= i,
    decreases s.len() - i,
{
    if 0 <= i && i < s.len() && is_ws(s[i]) {
        lemma_skip_ws_ge(s, i + 1);
    }
}

proof fn lemma_skip_ws_le(s: Seq<char>, i: int)
    requires
        i <= s.len(),
    ensures
        skip_ws(s, i) <= s.len(),
    decreases s.len() - i,
{
    if 0 <= i && i < s.len() && is_ws(s[i]) {
        lemma_skip_ws_le(s, i + 1);
    }
}

proof fn lemma_parse_string_body_advances(s: Seq<char>, i: int)
    requires
        parse_string_body(s, i) is Some,
    ensures
        i < parse_string_body(s, i)->Some_0.1 <= s.len(),
    decreases s.len() - i,
{
    if s[i] == '"' {
    } else if s[i] == '\\' {
        if s[i + 1] == 'u' {
            lemma_parse_string_body_advances(s, i + 6);
        } else {
            lemma_parse_string_body_advances(s, i + 2);
        }
    } else {
        lemma_parse_string_body_advances(s, i + 1);
    }
}

proof fn lemma_parse_item_advances(s: Seq<char>, i: int)
    requires
        parse_item(s, i) is Some,
    ensures
        i < parse_item(s, i)->Some_0.1 <= s.len(),
{
    lemma_skip_ws_ge(s, i);
    let i1 = skip_ws(s, i);
    let i2 = expect(s, i1, '{')->Some_0;
    lemma_skip_ws_ge(s, i2);
    lemma_skip_ws_le(s, i2);
    let i4 = parse_lit(s, skip_ws(s, i2), desc_key())->Some_0;
    lemma_skip_ws_ge(s, i4);
    lemma_skip_ws_le(s, i4);
    let i6 = expect(s, skip_ws(s, i4), ':')->Some_0;
    lemma_skip_ws_ge(s, i6);
    lemma_skip_ws_le(s, i6);
    let i8 = expect(s, skip_ws(s, i6), '"')->Some_0;
    lemma_parse_string_body_advances(s, i8);
    let i9 = parse_string_body(s, i8)->Some_0.1;
    lemma_skip_ws_ge(s, i9);
    lemma_skip_ws_le(s, i9);
    let i11 = expect(s, skip_ws(s, i9), ',')->Some_0;
    lemma_skip_ws_ge(s, i11);
    lemma_skip_ws_le(s, i11);
    let i13 = parse_lit(s, skip_ws(s, i11), status_key())->Some_0;
    lemma_skip_ws_ge(s, i13);
    lemma_skip_ws_le(s, i13);
    let i15 = expect(s, skip_ws(s, i13), ':')->Some_0;
    lemma_skip_ws_ge(s, i15);
    lemma_skip_ws_le(s, i15);
    let i17 = parse_bool(s, skip_ws(s, i15))->Some_0.1;
    lemma_skip_ws_ge(s, i17);
    lemma_skip_ws_le(s, i17);
}

// ---------------------------------------------------------------------------
// Round trip: the document written for a list decodes to that same list.
// ---------------------------------------------------------------------------

proof fn lemma_hex_round(x: int)
    requires
        0 <= x < 16,
    ensures
        hex_val(hex_digit_char(x)) == x,
{
}

/// One character of a run that stands at `i` in `s`.
proof fn lemma_char_at(s: Seq<char>, i: int, t: Seq<char>, k: int)
    requires
        0 <= i,
        i + t.len() <= s.len(),
        s.subrange(i, i + t.len() as int) == t,
        0 <= k < t.len(),
    ensures
        s[i + k] == t[k],
{
    assert(t[k] == s.subrange(i, i + t.len() as int)[k]);
}

/// A part of a run that stands at `i` in `s` stands at `i + a`.
proof fn lemma_sub_at(s: Seq<char>, i: int, t: Seq<char>, a: int, b: int)
    requires
        0 <= i,
        i + t.len() <= s.len(),
        s.subrange(i, i + t.len() as int) == t,
        0 <= a <= b <= t.len(),
    ensures
        s.subrange(i + a, i + b) == t.subrange(a, b),
{
    assert forall|k: int| 0 <= k < b - a implies s.subrange(i + a, i + b)[k] == t.subrange(a, b)[
        k
    ] by {
        assert(t[a + k] == s.subrange(i, i + t.len() as int)[a + k]);
    }
    assert(s.subrange(i + a, i + b) =~= t.subrange(a, b));
}

/// The escaped form of a description, followed by a closing quote, reads
/// back as exactly that description.
#[verifier::rlimit(50)]
proof fn lemma_parse_escaped(s: Seq<char>, i: int, d: Seq<char>)
    requires
        0 <= i,
        i + escape_string(d).len() + 1 <= s.len(),
        s.subrange(i, i + escape_string(d).len() as int) == escape_string(d),
        s[i + escape_string(d).len()] == '"',
    ensures
        parse_string_body(s, i) == Some((d, i + escape_string(d).len() + 1)),
    decreases d.len(),
{
    let e = escape_string(d);
    if d.len() == 0 {
        assert(e =~= Seq::<char>::empty());
        assert(s[i] == '"');
    } else {
        let c = d[0];
        let rest = d.drop_first();
        let ec = escape_char(c);
        let er = escape_string(rest);
        assert(e == ec + er);
        let ecl = ec.len() as int;
        assert(e.len() == ecl + er.len());
        lemma_sub_at(s, i, e, 0, ecl);
        assert(e.subrange(0, ecl) =~= ec);
        lemma_sub_at(s, i, e, ecl, e.len() as int);
        assert(e.subrange(ecl, e.len() as int) =~= er);
        let ip = i + ecl;
        assert(s.subrange(ip, ip + er.len() as int) == er);
        assert(s[ip + er.len()] == '"');
        lemma_parse_escaped(s, ip, rest);
        assert(parse_string_body(s, ip) == Some((rest, i + e.len() + 1)));
        assert(seq![c] + rest =~= d);
        if c == '"' {
            lemma_char_at(s, i, ec, 0);
            lemma_char_at(s, i, ec, 1);
            assert(s[i] == '\\' && s[i + 1] == '"');
            assert(parse_string_body(s, i) == Some((d, i + e.len() + 1)));
        } else if c == '\\' {
            lemma_char_at(s, i, ec, 0);
            lemma_char_at(s, i, ec, 1);
            assert(s[i] == '\\' && s[i + 1] == '\\');
            assert(parse_string_body(s, i) == Some((d, i + e.len() + 1)));
        } else if (c as u32) < 0x20 {
            let cu = c as u32;
            lemma_char_at(s, i, ec, 0);
            lemma_char_at(s, i, ec, 1);
            lemma_char_at(s, i, ec, 2);
            lemma_char_at(s, i, ec, 3);
            lemma_char_at(s, i, ec, 4);
            lemma_char_at(s, i, ec, 5);
            assert(s[i] == '\\' && s[i + 1] == 'u' && s[i + 2] == '0' && s[i + 3] == '0');
            assert(s[i + 4] == hex_digit_char((cu / 16) as int));
            assert(s[i + 5] == hex_digit_char((cu % 16) as int));
            lemma_hex_round((cu / 16) as int);
            lemma_hex_round((cu % 16) as int);
            assert(hex_val(s[i + 2]) == 0 && hex_val(s[i + 3]) == 0);
            assert(hex_val(s[i + 4]) * 16 + hex_val(s[i + 5]) == cu as int);
            let v = (hex_val(s[i + 2]) * 4096 + hex_val(s[i + 3]) * 256 + hex_val(s[i + 4]) * 16
                + hex_val(s[i + 5])) as u32;
            assert(v == cu);
            assert(valid_code(v));
            vstd::utf8::char_u32_cast(c, v);
            assert((v as char) == c);
            assert(parse_string_body(s, i) == Some((d, i + e.len() + 1)));
        } else {
            lemma_char_at(s, i, ec, 0);
            assert(s[i] == c);
            assert(parse_string_body(s, i) == Some((d, i + e.len() + 1)));
        }
    }
}

/// The text written for one item reads back as exactly that item.
#[verifier::rlimit(100)]
proof fn lemma_parse_item_at(s: Seq<char>, i: int, it: ItemModel)
    requires
        0 <= i,
        i + item_text(it).len() <= s.len(),
        s.subrange(i, i + item_text(it).len() as int) == item_text(it),
    ensures
        parse_item(s, i) == Some((it, i + item_text(it).len())),
{
    let t = item_text(it);
    let e = escape_string(it.description);
    let b = bool_text(it.status);
    let el: int = e.len() as int;
    let bl: int = b.len() as int;
    assert(t.len() == 28 + el + bl);
    // the head: '{', the description key, ':' and the opening quote
    lemma_sub_at(s, i, t, 0, 16);
    assert(t.subrange(0, 16) =~= item_head());
    lemma_char_at(s, i, item_head(), 0);
    lemma_char_at(s, i, item_head(), 1);
    lemma_char_at(s, i, item_head(), 14);
    lemma_char_at(s, i, item_head(), 15);
    lemma_sub_at(s, i, item_head(), 1, 14);
    assert(item_head().subrange(1, 14) =~= desc_key());
    assert(skip_ws(s, i) == i);
    assert(expect(s, i, '{') == Some(i + 1));
    assert(skip_ws(s, i + 1) == i + 1);
    assert(parse_lit(s, i + 1, desc_key()) == Some(i + 14));
    assert(skip_ws(s, i + 14) == i + 14);
    assert(expect(s, i + 14, ':') == Some(i + 15));
    assert(skip_ws(s, i + 15) == i + 15);
    assert(expect(s, i + 15, '"') == Some(i + 16));
    // the escaped description
    lemma_sub_at(s, i, t, 16, 16 + el);
    assert(t.subrange(16, 16 + el) =~= e);
    // the middle: closing quote, comma, status key and ':'
    lemma_sub_at(s, i, t, 16 + el, 27 + el);
    assert(t.subrange(16 + el, 27 + el) =~= item_mid());
    lemma_char_at(s, i + 16 + el, item_mid(), 0);
    lemma_char_at(s, i + 16 + el, item_mid(), 1);
    lemma_char_at(s, i + 16 + el, item_mid(), 10);
    lemma_sub_at(s, i + 16 + el, item_mid(), 2, 10);
    assert(item_mid().subrange(2, 10) =~= status_key());
    assert(s[i + 16 + el] == '"');
    lemma_parse_escaped(s, i + 16, it.description);
    assert(parse_string_body(s, i + 16) == Some((it.description, i + 17 + el)));
    assert(s[i + 17 + el] == ',');
    assert(skip_ws(s, i + 17 + el) == i + 17 + el);
    assert(expect(s, i + 17 + el, ',') == Some(i + 18 + el));
    assert(skip_ws(s, i + 18 + el) == i + 18 + el);
    assert(parse_lit(s, i + 18 + el, status_key()) == Some(i + 26 + el));
    assert(s[i + 26 + el] == ':');
    assert(skip_ws(s, i + 26 + el) == i + 26 + el);
    assert(expect(s, i + 26 + el, ':') == Some(i + 27 + el));
    // the status value
    lemma_sub_at(s, i, t, 27 + el, 27 + el + bl);
    assert(t.subrange(27 + el, 27 + el + bl) =~= b);
    lemma_char_at(s, i + 27 + el, b, 0);
    assert(skip_ws(s, i + 27 + el) == i + 27 + el);
    if it.status {
        assert(parse_lit(s, i + 27 + el, bool_text(true)) == Some(i + 31 + el));
        assert(parse_bool(s, i + 27 + el) == Some((true, i + 31 + el)));
    } else {
        assert(s[i + 27 + el] == 'f');
        assert(parse_lit(s, i + 27 + el, bool_text(true)) is None) by {
            if parse_lit(s, i + 27 + el, bool_text(true)) is Some {
                assert(s.subrange(i + 27 + el, i + 31 + el)[0] == 't');
                assert(false);
            }
        }
        assert(parse_lit(s, i + 27 + el, bool_text(false)) == Some(i + 32 + el));
        assert(parse_bool(s, i + 27 + el) == Some((false, i + 32 + el)));
    }
    // the closing brace
    lemma_char_at(s, i, t, 27 + el + bl);
    assert(t[27 + el + bl] == '}');
    assert(skip_ws(s, i + 27 + el + bl) == i + 27 + el + bl);
    assert(expect(s, i + 27 + el + bl, '}') == Some(i + 28 + el + bl));
    assert(ItemModel { description: it.description, status: it.status } == it);
    assert(parse_item(s, i) == Some((it, i + 28 + el + bl)));
}

/// The comma-separated texts of one or more items, followed by the closing
/// bracket, read back as exactly those items.
#[verifier::rlimit(50)]
proof fn lemma_parse_items_at(s: Seq<char>, i: int, items: Seq<ItemModel>)
    requires
        0 <= i,
        items.len() > 0,
        i + items_text(items).len() < s.len(),
        s.subrange(i, i + items_text(items).len() as int) == items_text(items),
        s[i + items_text(items).len()] == ']',
    ensures
        parse_items(s, i) == Some((items, i + items_text(items).len())),
    decreases items.len(),
{
    let t = items_text(items);
    if items.len() == 1 {
        assert(t == item_text(items[0]));
        lemma_parse_item_at(s, i, items[0]);
        let j: int = i + t.len() as int;
        assert(s[j] == ']');
        assert(skip_ws(s, j) == j);
        assert(seq![items[0]] =~= items);
        assert(parse_items(s, i) == Some((items, j)));
    } else {
        let first = items[0];
        let rest = items.drop_first();
        assert(t == item_text(first) + seq![','] + items_text(rest));
        let l0: int = item_text(first).len() as int;
        assert(t.len() == l0 + 1 + items_text(rest).len());
        lemma_sub_at(s, i, t, 0, l0);
        assert(t.subrange(0, l0) =~= item_text(first));
        lemma_parse_item_at(s, i, first);
        let j: int = i + l0;
        lemma_char_at(s, i, t, l0);
        assert(t[l0] == ',');
        assert(s[j] == ',');
        assert(skip_ws(s, j) == j);
        lemma_sub_at(s, i, t, l0 + 1, t.len() as int);
        assert(t.subrange(l0 + 1, t.len() as int) =~= items_text(rest));
        assert((j + 1) + items_text(rest).len() == i + t.len());
        lemma_parse_items_at(s, j + 1, rest);
        assert(seq![first] + rest =~= items);
        assert(parse_items(s, i) == Some((items, i + t.len())));
    }
}

/// Round trip: the exact document written for any list decodes back to that
/// same list, description characters and done flags alike, in order.
/// The fixed frame of a written document: its head tokens, and the closing
/// bracket and brace after the items.
#[verifier::rlimit(50)]
proof fn lemma_document_frame(items: Seq<ItemModel>)
    ensures
        ({
            let s = document_text(items);
            let til = items_text(items).len() as int;
            &&& s.len() == 12 + til
            &&& skip_ws(s, 0) == 0
            &&& expect(s, 0, '{') == Some(1int)
            &&& skip_ws(s, 1) == 1
            &&& parse_lit(s, 1, items_key()) == Some(8int)
            &&& skip_ws(s, 8) == 8
            &&& expect(s, 8, ':') == Some(9int)
            &&& skip_ws(s, 9) == 9
            &&& expect(s, 9, '[') == Some(10int)
            &&& s[10 + til] == ']'
            &&& s[11 + til] == '}'
            &&& s.subrange(10, 10 + til) == items_text(items)
        }),
{
    let s = document_text(items);
    let ti = items_text(items);
    let til: int = ti.len() as int;
    assert(s.len() == 12 + til);
    assert(s.subrange(0, s.len() as int) =~= s);
    lemma_sub_at(s, 0, s, 0, 10);
    assert(s.subrange(0, 10) =~= doc_head());
    lemma_char_at(s, 0, doc_head(), 0);
    lemma_char_at(s, 0, doc_head(), 8);
    lemma_char_at(s, 0, doc_head(), 9);
    lemma_sub_at(s, 0, doc_head(), 1, 8);
    assert(doc_head().subrange(1, 8) =~= items_key());
    lemma_sub_at(s, 0, s, 10, 10 + til);
    assert(s.subrange(10, 10 + til) =~= ti);
    lemma_sub_at(s, 0, s, 10 + til, 12 + til);
    assert(s.subrange(10 + til, 12 + til) =~= doc_tail());
    lemma_char_at(s, 10 + til, doc_tail(), 0);
    lemma_char_at(s, 10 + til, doc_tail(), 1);
    assert(s[10 + til] == ']');
    assert(s[11 + til] == '}');
    assert(skip_ws(s, 0) == 0);
    assert(expect(s, 0, '{') == Some(1int));
    assert(skip_ws(s, 1) == 1);
    assert(parse_lit(s, 1, items_key()) == Some(8int));
    assert(skip_ws(s, 8) == 8);
    assert(expect(s, 8, ':') == Some(9int));
    assert(skip_ws(s, 9) == 9);
    assert(expect(s, 9, '[') == Some(10int));
}

/// Round trip: the exact document written for any list decodes back to that
/// same list, description characters and done flags alike, in order.
#[verifier::rlimit(100)]
pub proof fn lemma_document_round_trip(items: Seq<ItemModel>)
    ensures
        parse_document(document_text(items)) == Some(items),
{
    let s = document_text(items);
    let ti = items_text(items);
    let til: int = ti.len() as int;
    lemma_document_frame(items);
    if items.len() == 0 {
        assert(ti =~= Seq::<char>::empty());
        assert(s[10] == ']');
        assert(skip_ws(s, 10) == 10);
        assert(s[11] == '}');
        assert(skip_ws(s, 11) == 11);
        assert(expect(s, 11, '}') == Some(12int));
        assert(skip_ws(s, 12) == 12 == s.len());
        assert(finish_document(s, 11, Seq::<ItemModel>::empty()) == Some(
            Seq::<ItemModel>::empty(),
        ));
        assert(items =~= Seq::<ItemModel>::empty());
    } else {
        lemma_char_at(s, 10, ti, 0);
        assert(ti[0] == item_text(items[0])[0]);
        assert(ti[0] == '{');
        assert(s[10] == '{');
        assert(skip_ws(s, 10) == 10);
        assert(s[10] != ']');
        lemma_parse_items_at(s, 10, items);
        let j: int = 10 + til;
        assert(skip_ws(s, j) == j);
        assert(expect(s, j, ']') == Some(j + 1));
        assert(skip_ws(s, j + 1) == j + 1);
        assert(expect(s, j + 1, '}') == Some(j + 2));
        assert(j + 2 == s.len());
        assert(skip_ws(s, j + 2) == s.len());
        assert(finish_document(s, j + 1, items) == Some(items));
    }
}

// ---------------------------------------------------------------------------
// The executable decoder.
// ---------------------------------------------------------------------------

/// Relies on `char::from_u32`: it returns the character with the given code
/// exactly when the code is a Unicode scalar value (not a surrogate, at most
/// 0x10FFFF), and `None` otherwise.
#[verifier::external_body]
fn char_from_code(v: u32) -> (r: Option<char>)
    ensures
        r is Some <==> valid_code(v),
        r is Some ==> r->Some_0 as u32 == v,
{
    char::from_u32(v)
}

fn hex_val_exec(c: char) -> (r: Option<u32>)
    ensures
        r is Some <==> hex_val(c) >= 0,
        r is Some ==> r->Some_0 == hex_val(c) && r->Some_0 < 16,
{
    if c >= '0' && c <= '9' {
        Some(c as u32 - '0' as u32)
    } else if c >= 'a' && c <= 'f' {
        Some(c as u32 - 'a' as u32 + 10)
    } else if c >= 'A' && c <= 'F' {
        Some(c as u32 - 'A' as u32 + 10)
    } else {
        None
    }
}

fn unescape_short_exec(c: char) -> (r: Option<char>)
    ensures
        r == unescape_short(c),
{
    if c == '"' {
        Some('"')
    } else if c == '\\' {
        Some('\\')
    } else if c == '/' {
        Some('/')
    } else if c == 'b' {
        Some('\u{0008}')
    } else if c == 'f' {
        Some('\u{000C}')
    } else if c == 'n' {
        Some('\n')
    } else if c == 'r' {
        Some('\r')
    } else if c == 't' {
        Some('\t')
    } else {
        None
    }
}

fn skip_ws_exec(s: &str, n: usize, i: usize) -> (r: usize)
    requires
        n == s@.len(),
        i <= n,
    ensures
        i <= r <= n,
        r as int == skip_ws(s@, i as int),
    decreases n - i,
{
    if i < n {
        let c = s.get_char(i);
        if c == ' ' || c == '\n' || c == '\t' || c == '\r' {
            skip_ws_exec(s, n, i + 1)
        } else {
            i
        }
    } else {
        i
    }
}

fn expect_exec(s: &str, n: usize, i: usize, c: char) -> (r: Option<usize>)
    requires
        n == s@.len(),
        i <= n,
    ensures
        match r {
            Some(j) => expect(s@, i as int, c) == Some(j as int) && i < j <= n,
            None => expect(s@, i as int, c) is None,
        },
{
    if i < n && s.get_char(i) == c {
        Some(i + 1)
    } else {
        None
    }
}

fn expect_lit(s: &str, n: usize, i: usize, lit: &str, litlen: usize) -> (r: Option<usize>)
    requires
        n == s@.len(),
        i <= n,
        litlen == lit@.len(),
    ensures
        match r {
            Some(j) => parse_lit(s@, i as int, lit@) == Some(j as int) && i <= j <= n,
            None => parse_lit(s@, i as int, lit@) is None,
        },
{
    if litlen > n - i {
        return None;
    }
    let mut k: usize = 0;
    while k < litlen
        invariant
            n == s@.len(),
            litlen == lit@.len(),
            i <= n,
            litlen <= n - i,
            k <= litlen,
            s@.subrange(i as int, i + k) == lit@.subrange(0, k as int),
        decreases litlen - k,
    {
        if s.get_char(i + k) != lit.get_char(k) {
            proof {
                if parse_lit(s@, i as int, lit@) is Some {
                    assert(s@.subrange(i as int, i + lit@.len())[k as int] == lit@[k as int]);
                    assert(false);
                }
            }
            return None;
        }
        proof {
            assert(s@.subrange(i as int, i + k + 1) =~= lit@.subrange(0, k + 1));
        }
        k = k + 1;
    }
    proof {
        assert(s@.subrange(i as int, i + litlen as int) =~= lit@);
    }
    Some(i + litlen)
}

fn parse_bool_exec(s: &str, n: usize, i: usize) -> (r: Option<(bool, usize)>)
    requires
        n == s@.len(),
        i <= n,
    ensures
        match r {
            Some((b, j)) => parse_bool(s@, i as int) == Some((b, j as int)) && i < j <= n,
            None => parse_bool(s@, i as int) is None,
        },
{
    proof {
        reveal_strlit("true");
        reveal_strlit("false");
        assert("true"@ =~= bool_text(true));
        assert("false"@ =~= bool_text(false));
    }
    if let Some(j) = expect_lit(s, n, i, "true", 4) {
        Some((true, j))
    } else if let Some(j) = expect_lit(s, n, i, "false", 5) {
        Some((false, j))
    } else {
        None
    }
}

fn parse_string_body_exec(s: &str, n: usize, i: usize) -> (r: Option<(Vec<char>, usize)>)
    requires
        n == s@.len(),
        i <= n,
    ensures
        match r {
            Some((d, j)) => parse_string_body(s@, i as int) == Some((d@, j as int)) && i < j <= n,
            None => parse_string_body(s@, i as int) is None,
        },
    decreases n - i,
{
    if i >= n {
        return None;
    }
    let c = s.get_char(i);
    if c == '"' {
        let d: Vec<char> = Vec::new();
        proof {
            assert(d@ =~= Seq::<char>::empty());
        }
        return Some((d, i + 1));
    }
    if c == '\\' {
        if i + 1 >= n {
            return None;
        }
        let e = s.get_char(i + 1);
        if e == 'u' {
            if n - i < 6 {
                return None;
            }
            let h1 = hex_val_exec(s.get_char(i + 2));
            let h2 = hex_val_exec(s.get_char(i + 3));
            let h3 = hex_val_exec(s.get_char(i + 4));
            let h4 = hex_val_exec(s.get_char(i + 5));
            if h1.is_none() || h2.is_none() || h3.is_none() || h4.is_none() {
                return None;
            }
            let v: u32 = h1.unwrap() * 4096 + h2.unwrap() * 256 + h3.unwrap() * 16 + h4.unwrap();
            match char_from_code(v) {
                None => {
                    return None;
                },
                Some(c2) => {
                    proof {
                        vstd::utf8::char_u32_cast(c2, v);
                    }
                    match parse_string_body_exec(s, n, i + 6) {
                        None => {
                            return None;
                        },
                        Some((mut d, j)) => {
                            d.insert(0, c2);
                            proof {
                                assert(d@ =~= seq![(v as char)]
                                    + parse_string_body(s@, i + 6)->Some_0.0);
                            }
                            return Some((d, j));
                        },
                    }
                },
            }
        } else {
            match unescape_short_exec(e) {
                None => {
                    return None;
                },
                Some(c2) => {
                    match parse_string_body_exec(s, n, i + 2) {
                        None => {
                            return None;
                        },
                        Some((mut d, j)) => {
                            d.insert(0, c2);
                            proof {
                                assert(d@ =~= seq![c2] + parse_string_body(s@, i + 2)->Some_0.0);
                            }
                            return Some((d, j));
                        },
                    }
                },
            }
        }
    }
    if (c as u32) < 0x20 {
        return None;
    }
    match parse_string_body_exec(s, n, i + 1) {
        None => None,
        Some((mut d, j)) => {
            d.insert(0, c);
            proof {
                assert(d@ =~= seq![c] + parse_string_body(s@, i + 1)->Some_0.0);
            }
            Some((d, j))
        },
    }
}

fn parse_item_exec(s: &str, n: usize, i: usize) -> (r: Option<(TodoItem, usize)>)
    requires
        n == s@.len(),
        i <= n,
    ensures
        match r {
            Some((it, j)) => parse_item(s@, i as int) == Some((it@, j as int)) && i < j <= n,
            None => parse_item(s@, i as int) is None,
        },
{
    proof {
        reveal_strlit("\"description\"");
        reveal_strlit("\"status\"");
        assert("\"description\""@ =~= desc_key());
        assert("\"status\""@ =~= status_key());
    }
    let i1 = skip_ws_exec(s, n, i);
    let i2 = match expect_exec(s, n, i1, '{') {
        None => {
            return None;
        },
        Some(j) => j,
    };
    let i3 = skip_ws_exec(s, n, i2);
    let i4 = match expect_lit(s, n, i3, "\"description\"", 13) {
        None => {
            return None;
        },
        Some(j) => j,
    };
    let i5 = skip_ws_exec(s, n, i4);
    let i6 = match expect_exec(s, n, i5, ':') {
        None => {
            return None;
        },
        Some(j) => j,
    };
    let i7 = skip_ws_exec(s, n, i6);
    let i8 = match expect_exec(s, n, i7, '"') {
        None => {
            return None;
        },
        Some(j) => j,
    };
    let (d, i9) = match parse_string_body_exec(s, n, i8) {
        None => {
            return None;
        },
        Some(p) => p,
    };
    let i10 = skip_ws_exec(s, n, i9);
    let i11 = match expect_exec(s, n, i10, ',') {
        None => {
            return None;
        },
        Some(j) => j,
    };
    let i12 = skip_ws_exec(s, n, i11);
    let i13 = match expect_lit(s, n, i12, "\"status\"", 8) {
        None => {
            return None;
        },
        Some(j) => j,
    };
    let i14 = skip_ws_exec(s, n, i13);
    let i15 = match expect_exec(s, n, i14, ':') {
        None => {
            return None;
        },
        Some(j) => j,
    };
    let i16 = skip_ws_exec(s, n, i15);
    let (b, i17) = match parse_bool_exec(s, n, i16) {
        None => {
            return None;
        },
        Some(p) => p,
    };
    let i18 = skip_ws_exec(s, n, i17);
    let i19 = match expect_exec(s, n, i18, '}') {
        None => {
            return None;
        },
        Some(j) => j,
    };
    let it = TodoItem { description: string_from_chars(d), status: b };
    Some((it, i19))
}

fn parse_items_exec(s: &str, n: usize, i: usize) -> (r: Option<(Vec<TodoItem>, usize)>)
    requires
        n == s@.len(),
        i <= n,
    ensures
        match r {
            Some((v, j)) => parse_items(s@, i as int) == Some(
                (v@.map_values(|t: TodoItem| t@), j as int),
            ) && i < j <= n,
            None => parse_items(s@, i as int) is None,
        },
    decreases n - i,
{
    let (it, j) = match parse_item_exec(s, n, i) {
        None => {
            return None;
        },
        Some(p) => p,
    };
    let k = skip_ws_exec(s, n, j);
    if k < n && s.get_char(k) == ',' {
        match parse_items_exec(s, n, k + 1) {
            None => None,
            Some((mut v, m)) => {
                proof {
                    let ghost tail = v@.map_values(|t: TodoItem| t@);
                    assert(v@.insert(0, it).map_values(|t: TodoItem| t@) =~= seq![it@] + tail);
                }
                v.insert(0, it);
                Some((v, m))
            },
        }
    } else {
        let mut v: Vec<TodoItem> = Vec::new();
        v.push(it);
        proof {
            assert(v@.map_values(|t: TodoItem| t@) =~= seq![it@]);
        }
        Some((v, j))
    }
}

impl TodoList {
    /// The exact persisted document for this list, ready to be written out
    /// in full.
    pub fn to_document(&self) -> (r: String)
        ensures
            r@ == document_text(self@),
    {
        let mut out: Vec<char> = Vec::new();
        append_lit(&mut out, "{\"items\":[");
        proof {
            reveal_strlit("{\"items\":[");
            assert("{\"items\":["@ =~= doc_head());
            assert(out@ =~= doc_head() + items_text(self@.take(0)));
        }
        let n = self.items.len();
        let mut i: usize = 0;
        while i < n
            invariant
                i <= n,
                n == self.items@.len(),
                out@ == doc_head() + items_text(self@.take(i as int)),
            decreases n - i,
        {
            if i > 0 {
                out.push(',');
            }
            append_item_text(&mut out, &self.items[i].description, self.items[i].status);
            proof {
                lemma_items_text_snoc(self@.take(i as int), self@[i as int]);
                assert(self@.take(i + 1) =~= self@.take(i as int).push(self@[i as int]));
                assert(out@ =~= doc_head() + items_text(self@.take(i + 1)));
            }
            i = i + 1;
        }
        append_lit(&mut out, "]}");
        proof {
            reveal_strlit("]}");
            assert(self@.take(n as int) =~= self@);
            assert(out@ =~= document_text(self@));
        }
        string_from_chars(out)
    }

    /// Decodes a persisted document. An empty document is an empty list; a
    /// non-empty document must parse in full, else nothing of it is taken
    /// and the corruption is reported.
    pub fn from_document(s: &str) -> (r: Result<TodoList, TodoError>)
        ensures
            s@.len() == 0 ==> r is Ok && r->Ok_0@ == Seq::<ItemModel>::empty(),
            s@.len() != 0 && parse_document(s@) is Some ==> r is Ok && Some(r->Ok_0@)
                == parse_document(s@),
            s@.len() != 0 && parse_document(s@) is None ==> r == Err::<TodoList, TodoError>(
                TodoError::CorruptData,
            ),
    {
        let n = s.unicode_len();
        if n == 0 {
            return Ok(TodoList::new());
        }
        proof {
            reveal_strlit("\"items\"");
            assert("\"items\""@ =~= items_key());
        }
        let i1 = skip_ws_exec(s, n, 0);
        let i2 = match expect_exec(s, n, i1, '{') {
            None => {
                return Err(TodoError::CorruptData);
            },
            Some(j) => j,
        };
        let i3 = skip_ws_exec(s, n, i2);
        let i4 = match expect_lit(s, n, i3, "\"items\"", 7) {
            None => {
                return Err(TodoError::CorruptData);
            },
            Some(j) => j,
        };
        let i5 = skip_ws_exec(s, n, i4);
        let i6 = match expect_exec(s, n, i5, ':') {
            None => {
                return Err(TodoError::CorruptData);
            },
            Some(j) => j,
        };
        let i7 = skip_ws_exec(s, n, i6);
        let i8 = match expect_exec(s, n, i7, '[') {
            None => {
                return Err(TodoError::CorruptData);
            },
            Some(j) => j,
        };
        let i9 = skip_ws_exec(s, n, i8);
        let (items, after) = if i9 < n && s.get_char(i9) == ']' {
            (Vec::new(), i9 + 1)
        } else {
            let (v, i10) = match parse_items_exec(s, n, i8) {
                None => {
                    return Err(TodoError::CorruptData);
                },
                Some(p) => p,
            };
            let i11 = skip_ws_exec(s, n, i10);
            match expect_exec(s, n, i11, ']') {
                None => {
                    return Err(TodoError::CorruptData);
                },
                Some(i12) => (v, i12),
            }
        };
        let f1 = skip_ws_exec(s, n, after);
        let f2 = match expect_exec(s, n, f1, '}') {
            None => {
                return Err(TodoError::CorruptData);
            },
            Some(j) => j,
        };
        if skip_ws_exec(s, n, f2) != n {
            return Err(TodoError::CorruptData);
        }
        let list = TodoList { items };
        proof {
            assert(Some(list@) == parse_document(s@));
        }
        Ok(list)
    }
}

} // verus!
