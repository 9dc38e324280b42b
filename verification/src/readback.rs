//! What a store writes, the reader reads back: the text of a store is a
//! document whose one entry, `graph`, lists a record for every node and every
//! edge of the store.

use crate::export::{decimal_text, digit_text, edge_text, edges_text, gml_text, label_text, node_text, nodes_text, status_text};
use crate::gfa::{GraphView, NodeView, Provenance};
use crate::gml::{
    document_graph, edge_of, edges_of, first_key, has_key, is_first, lemma_first_key, lemma_has_key,
    lemma_key_found, lemma_nodes_count, node_of, nodes_of, text_under, without, EdgeModel, GMLValue, NodeModel,
};
use crate::gml_text::{
    digits_value, entries_after, in_class, is_integer, is_key_start, lemma_entries_model, number_of,
    read_document, read_entries, read_value, run_end, sign_end, value_model, ByteClass, ValueModel,
};
use crate::ident::is_digit;
use crate::search_proofs::lemma_distinct_below;
use vstd::prelude::*;
use vstd::utf8::{decode_utf8, encode_utf8, is_ascii_chars};

verus! {

/// The text from an offset on.
pub open spec fn rest_at(text: Seq<u8>, from: int) -> Seq<u8> {
    text.subrange(from, text.len() as int)
}

/// Encoding a text piece by piece gives the pieces' bytes one after
/// another.
pub proof fn lemma_encode_concat(a: Seq<char>, b: Seq<char>)
    ensures
        encode_utf8(a + b) == encode_utf8(a) + encode_utf8(b),
    decreases a.len(),
{
    if a.len() == 0 {
        assert(a + b =~= b);
        assert(encode_utf8(a) + encode_utf8(b) =~= encode_utf8(b));
    } else {
        assert((a + b).drop_first() =~= a.drop_first() + b);
        lemma_encode_concat(a.drop_first(), b);
        assert((a + b)[0] == a[0]);
        assert(encode_utf8(a + b) =~= encode_utf8(a) + encode_utf8(b));
    }
}

/// Where the text from `from` on begins with a piece, the piece stands at
/// `from` byte for byte and the rest follows it.
pub proof fn lemma_piece(text: Seq<u8>, from: int, piece: Seq<u8>, rest: Seq<u8>)
    requires
        0 <= from <= text.len(),
        rest_at(text, from) == piece + rest,
    ensures
        from + piece.len() + rest.len() == text.len(),
        forall|j: int| 0 <= j < piece.len() ==> text[from + j] == #[trigger] piece[j],
        rest.len() > 0 ==> text[from + piece.len()] == rest[0],
        rest_at(text, from + piece.len()) == rest,
        text.subrange(from, from + piece.len()) == piece,
{
    let tail = rest_at(text, from);
    assert(tail.len() == piece.len() + rest.len());
    assert forall|j: int| 0 <= j < piece.len() implies text[from + j] == #[trigger] piece[j] by {
        assert(tail[j] == text[from + j]);
        assert((piece + rest)[j] == piece[j]);
    }
    if rest.len() > 0 {
        assert(tail[piece.len() as int] == text[from + piece.len()]);
        assert((piece + rest)[piece.len() as int] == rest[0]);
    }
    assert forall|j: int| 0 <= j < rest.len() implies rest_at(text, from + piece.len())[j] == rest[j] by {
        assert(tail[piece.len() + j] == text[from + piece.len() + j]);
        assert((piece + rest)[piece.len() + j] == rest[j]);
    }
    assert(rest_at(text, from + piece.len()) =~= rest);
    assert(text.subrange(from, from + piece.len()) =~= piece);
}

/// A run of a class goes over a piece of that class and stops before a rest
/// that begins otherwise.
pub proof fn lemma_run_over(text: Seq<u8>, from: int, piece: Seq<u8>, rest: Seq<u8>, class: ByteClass)
    requires
        0 <= from <= text.len(),
        rest_at(text, from) == piece + rest,
        forall|j: int| 0 <= j < piece.len() ==> in_class(class, #[trigger] piece[j]),
        rest.len() == 0 || !in_class(class, rest[0]),
    ensures
        run_end(text, from, class) == from + piece.len(),
    decreases piece.len(),
{
    lemma_piece(text, from, piece, rest);
    if piece.len() > 0 {
        assert(text[from + 0] == piece[0]);
        let shorter = piece.drop_first();
        assert(rest_at(text, from + 1) =~= shorter + rest) by {
            assert forall|j: int| 0 <= j < shorter.len() + rest.len() implies rest_at(text, from + 1)[j] == (
            shorter + rest)[j] by {
                assert(rest_at(text, from)[j + 1] == (piece + rest)[j + 1]);
            }
        }
        assert forall|j: int| 0 <= j < shorter.len() implies in_class(class, #[trigger] shorter[j]) by {
            assert(shorter[j] == piece[j + 1]);
        }
        lemma_run_over(text, from + 1, shorter, rest, class);
    }
}

/// Whether the bytes are a key: letters, digits and underscores, not a digit
/// first.
pub open spec fn key_bytes(key: Seq<u8>) -> bool {
    &&& key.len() > 0
    &&& is_key_start(key[0])
    &&& forall|j: int| 0 <= j < key.len() ==> in_class(ByteClass::KeyPart, #[trigger] key[j])
}

/// Whether the bytes are blanks.
pub open spec fn blank_bytes(blank: Seq<u8>) -> bool {
    forall|j: int| 0 <= j < blank.len() ==> in_class(ByteClass::Blank, #[trigger] blank[j])
}

/// Reading an entry: blanks, a key, a space and a value that is read.
pub proof fn lemma_entry(
    text: Seq<u8>,
    from: int,
    blank: Seq<u8>,
    key: Seq<u8>,
    value: Seq<u8>,
    rest: Seq<u8>,
    read: ValueModel,
)
    requires
        0 <= from <= text.len(),
        rest_at(text, from) == blank + (key + (seq![0x20u8] + (value + rest))),
        blank_bytes(blank),
        key_bytes(key),
        value.len() > 0,
        !in_class(ByteClass::Blank, value[0]),
        read_value(text, from + blank.len() + key.len() + 1) == Some(
            (read, from + blank.len() + key.len() + 1 + value.len()),
        ),
    ensures
        read_entries(text, from) == entries_after(
            seq![(decode_utf8(key), read)],
            read_entries(text, from + blank.len() + key.len() + 1 + value.len()),
        ),
{
    let space = seq![0x20u8];
    let after_blank = key + (space + (value + rest));
    let after_key = space + (value + rest);
    let after_space = value + rest;
    lemma_piece(text, from, blank, after_blank);
    let key_at = from + blank.len();
    assert(after_blank[0] == key[0]);
    lemma_run_over(text, from, blank, after_blank, ByteClass::Blank);
    lemma_piece(text, key_at, key, after_key);
    assert(after_key[0] == 0x20u8);
    lemma_run_over(text, key_at, key, after_key, ByteClass::KeyPart);
    let key_end = key_at + key.len();
    lemma_piece(text, key_end, space, after_space);
    assert(after_space[0] == value[0]);
    lemma_run_over(text, key_end, space, after_space, ByteClass::Blank);
    lemma_piece(text, key_end + 1, value, rest);
    assert(text[key_at + 0] == key[0]);
}

/// Reading the end of a list of entries: blanks, then what begins no key.
pub proof fn lemma_entries_end(text: Seq<u8>, from: int, blank: Seq<u8>, rest: Seq<u8>)
    requires
        0 <= from <= text.len(),
        rest_at(text, from) == blank + rest,
        blank_bytes(blank),
        rest.len() == 0 || (!in_class(ByteClass::Blank, rest[0]) && !is_key_start(rest[0])),
    ensures
        read_entries(text, from) == Some((Seq::<(Seq<char>, ValueModel)>::empty(), from + blank.len())),
{
    lemma_piece(text, from, blank, rest);
    lemma_run_over(text, from, blank, rest, ByteClass::Blank);
}

/// Reading a text: a double quote, what holds none, and a double quote.
pub proof fn lemma_text_value(text: Seq<u8>, at: int, content: Seq<u8>, rest: Seq<u8>)
    requires
        0 <= at <= text.len(),
        rest_at(text, at) == seq![0x22u8] + (content + (seq![0x22u8] + rest)),
        forall|j: int| 0 <= j < content.len() ==> #[trigger] content[j] != 0x22,
    ensures
        read_value(text, at) == Some((ValueModel::Text(decode_utf8(content)), at + content.len() + 2)),
{
    let quote = seq![0x22u8];
    let after_open = content + (quote + rest);
    let after_content = quote + rest;
    lemma_piece(text, at, quote, after_open);
    assert(text[at + 0] == quote[0]);
    lemma_piece(text, at + 1, content, after_content);
    assert(after_content[0] == 0x22u8);
    lemma_run_over(text, at + 1, content, after_content, ByteClass::TextPart);
}

/// Reading an integer: its digits, before what belongs to no number.
pub proof fn lemma_int_value(text: Seq<u8>, at: int, digits: Seq<u8>, rest: Seq<u8>)
    requires
        0 <= at <= text.len(),
        rest_at(text, at) == digits + rest,
        digits.len() > 0,
        forall|j: int| 0 <= j < digits.len() ==> is_digit(#[trigger] digits[j]),
        rest.len() > 0,
        !in_class(ByteClass::NumberPart, rest[0]),
        digits_value(digits) <= i64::MAX,
    ensures
        read_value(text, at) == Some((ValueModel::Int(digits_value(digits) as i64), at + digits.len())),
{
    lemma_piece(text, at, digits, rest);
    assert(text[at + 0] == digits[0]);
    lemma_run_over(text, at, digits, rest, ByteClass::NumberPart);
    assert(rest_at(digits, 0) =~= digits + Seq::<u8>::empty());
    lemma_run_over(digits, 0, digits, Seq::<u8>::empty(), ByteClass::Digit);
    assert(sign_end(digits, 0) == 0);
    assert(digits.subrange(0, digits.len() as int) =~= digits);
    assert(is_integer(digits));
    assert(number_of(digits) == Some(ValueModel::Int(digits_value(digits) as i64)));
}

/// Reading a list: `[`, entries that are read, and `]`.
pub proof fn lemma_list_value(text: Seq<u8>, at: int, entries: Seq<(Seq<char>, ValueModel)>, end: int)
    requires
        0 <= at < end < text.len(),
        text[at] == 0x5b,
        text[end] == 0x5d,
        read_entries(text, at + 1) == Some((entries, end)),
    ensures
        read_value(text, at) == Some((ValueModel::List(entries), end + 1)),
{
}

/// Whether a text holds no double quote.
pub open spec fn free_of_quote(text: Seq<char>) -> bool {
    forall|i: int| 0 <= i < text.len() ==> #[trigger] text[i] != '"'
}

/// A text without a double quote encodes without the byte of one.
pub proof fn lemma_no_quote(text: Seq<char>)
    requires
        free_of_quote(text),
    ensures
        forall|j: int| 0 <= j < encode_utf8(text).len() ==> #[trigger] encode_utf8(text)[j] != 0x22,
    decreases text.len(),
{
    if text.len() > 0 {
        let bytes = encode_utf8(text);
        let first = vstd::utf8::encode_scalar(text[0] as u32);
        let later = encode_utf8(text.drop_first());
        vstd::utf8::encode_utf8_first_scalar(text);
        assert(free_of_quote(text.drop_first())) by {
            assert forall|i: int| 0 <= i < text.drop_first().len() implies #[trigger] text.drop_first()[i]
                != '"' by {
                assert(text.drop_first()[i] == text[i + 1]);
            }
        }
        lemma_no_quote(text.drop_first());
        assert(text[0] != '"');
        assert(bytes[0] != 0x22) by {
            let b = bytes[0];
            if b == 0x22 {
                assert((0x22u8 & 0x7f) as u32 == 0x22u32) by (bit_vector);
                assert(vstd::utf8::decode_first_scalar(bytes) == 0x22u32);
                assert(text[0] as u32 == 0x22u32);
                assert('"' as u32 == 0x22u32);
                vstd::utf8::char_u32_cast(text[0], 0x22u32);
                vstd::utf8::char_u32_cast('"', 0x22u32);
            }
        }
        assert forall|j: int| 0 <= j < bytes.len() implies #[trigger] bytes[j] != 0x22 by {
            if j >= first.len() {
                assert(bytes[j] == later[j - first.len()]);
            }
        }
    }
}

/// Whether a text is a key of small letters.
pub open spec fn small_letters(text: Seq<char>) -> bool {
    text.len() > 0 && forall|i: int| 0 <= i < text.len() ==> 'a' <= #[trigger] text[i] <= 'z'
}

/// Small letters encode to a key, byte for letter.
pub proof fn lemma_key(text: Seq<char>)
    requires
        small_letters(text),
    ensures
        key_bytes(encode_utf8(text)),
        encode_utf8(text).len() == text.len(),
        decode_utf8(encode_utf8(text)) == text,
{
    assert(is_ascii_chars(text));
    vstd::utf8::is_ascii_chars_encode_utf8(text);
    vstd::utf8::encode_utf8_decode_utf8(text);
    let bytes = encode_utf8(text);
    assert forall|j: int| 0 <= j < bytes.len() implies in_class(ByteClass::KeyPart, #[trigger] bytes[j]) by {
        assert(text[j] as u8 == bytes[j]);
    }
    assert(text[0] as u8 == bytes[0]);
}

/// Whether a text is made of spaces, tabs and line ends.
pub open spec fn blank_text(text: Seq<char>) -> bool {
    forall|i: int| 0 <= i < text.len() ==> (#[trigger] text[i] == ' ' || text[i] == '\t' || text[i] == '\n')
}

/// Blank text encodes to blanks, byte for character.
pub proof fn lemma_blank(text: Seq<char>)
    requires
        blank_text(text),
    ensures
        blank_bytes(encode_utf8(text)),
        encode_utf8(text).len() == text.len(),
        forall|j: int| 0 <= j < text.len() ==> #[trigger] encode_utf8(text)[j] == text[j] as u8,
{
    assert(is_ascii_chars(text));
    vstd::utf8::is_ascii_chars_encode_utf8(text);
    let bytes = encode_utf8(text);
    assert forall|j: int| 0 <= j < bytes.len() implies in_class(ByteClass::Blank, #[trigger] bytes[j]) by {
        assert(text[j] as u8 == bytes[j]);
    }
}

/// One character below `0x80` encodes to its one byte.
pub proof fn lemma_single(c: char)
    requires
        c <= '\u{7f}',
    ensures
        encode_utf8(seq![c]) == seq![c as u8],
{
    let text = seq![c];
    assert(is_ascii_chars(text));
    vstd::utf8::is_ascii_chars_encode_utf8(text);
    assert(text[0] as u8 == encode_utf8(text)[0]);
    assert(encode_utf8(text) =~= seq![c as u8]);
}

/// The numeral of a digit encodes to the digit's byte.
pub proof fn lemma_digit_bytes(d: nat)
    requires
        d < 10,
    ensures
        encode_utf8(digit_text(d)) == seq![(0x30 + d) as u8],
{
    reveal_strlit("0");
    reveal_strlit("1");
    reveal_strlit("2");
    reveal_strlit("3");
    reveal_strlit("4");
    reveal_strlit("5");
    reveal_strlit("6");
    reveal_strlit("7");
    reveal_strlit("8");
    reveal_strlit("9");
    let text = digit_text(d);
    assert(text.len() == 1);
    assert(text =~= seq![text[0]]);
    lemma_single(text[0]);
}

/// A number in decimal encodes to digits that write the number.
pub proof fn lemma_decimal_bytes(n: nat)
    ensures
        encode_utf8(decimal_text(n)).len() > 0,
        forall|j: int| 0 <= j < encode_utf8(decimal_text(n)).len() ==> is_digit(#[trigger] encode_utf8(decimal_text(n))[j]),
        digits_value(encode_utf8(decimal_text(n))) == n,
    decreases n,
{
    if n < 10 {
        lemma_digit_bytes(n);
        let d = encode_utf8(decimal_text(n));
        assert(d.drop_last() =~= Seq::<u8>::empty());
        assert(digits_value(d.drop_last()) == 0);
    } else {
        lemma_decimal_bytes(n / 10);
        lemma_digit_bytes(n % 10);
        lemma_encode_concat(decimal_text(n / 10), digit_text(n % 10));
        let high = encode_utf8(decimal_text(n / 10));
        let low = encode_utf8(digit_text(n % 10));
        let d = encode_utf8(decimal_text(n));
        assert(d == high + low);
        assert(d.drop_last() =~= high);
        assert(d.last() == low[0]);
        assert forall|j: int| 0 <= j < d.len() implies is_digit(#[trigger] d[j]) by {
            if j < high.len() {
                assert(d[j] == high[j]);
            }
        }
    }
}

/// A field of a record: a line break, two tabs, the key, a space and the
/// value.
pub open spec fn field_text(key: Seq<char>, value: Seq<char>) -> Seq<char> {
    "\n\t\t"@ + (key + (" "@ + value))
}

/// A text between double quotes.
pub open spec fn quoted(text: Seq<char>) -> Seq<char> {
    "\""@ + (text + "\""@)
}

/// The fields of a node's record.
pub open spec fn node_fields(slot: nat, node: NodeView) -> Seq<char> {
    field_text("id"@, decimal_text(slot)) + (field_text("label"@, quoted(label_text(node.id))) + (field_text(
        "sequence"@,
        quoted(node.sequence),
    ) + field_text("status"@, quoted(status_text(node.status)))))
}

/// The fields of an edge's record.
pub open spec fn edge_fields(edge: (int, int)) -> Seq<char> {
    field_text("source"@, decimal_text(edge.0 as nat)) + field_text("target"@, decimal_text(edge.1 as nat))
}

/// A list as it is written: `[`, the fields, a line break, a tab and `]`.
pub open spec fn list_text(fields: Seq<char>) -> Seq<char> {
    "["@ + (fields + ("\n\t"@ + "]"@))
}

/// A record as it is written behind the line before it: a line break, a
/// tab, the key, a space and the list.
pub open spec fn line_text(key: Seq<char>, fields: Seq<char>) -> Seq<char> {
    "\n\t"@ + (key + (" "@ + list_text(fields)))
}

/// The line of a node.
pub open spec fn node_line(slot: nat, node: NodeView) -> Seq<char> {
    line_text("node"@, node_fields(slot, node))
}

/// The line of an edge.
pub open spec fn edge_line(edge: (int, int)) -> Seq<char> {
    line_text("edge"@, edge_fields(edge))
}

/// A chain of nine pieces behind a line break, grouped from the right.
proof fn lemma_chain(
    nl: Seq<char>,
    a: Seq<char>,
    b: Seq<char>,
    c: Seq<char>,
    d: Seq<char>,
    e: Seq<char>,
    f: Seq<char>,
    g: Seq<char>,
    h: Seq<char>,
    i: Seq<char>,
)
    ensures
        nl + (a + b + c + d + e + f + g + h + i) == (nl + a) + (b + (c + (d + (e + (f + (g + (h + i))))))),
{
    assert(nl + (a + b + c + d + e + f + g + h + i) =~= (nl + a) + (b + (c + (d + (e + (f + (g + (h + i))))))));
}

/// The closing piece of a record, behind the last value.
proof fn lemma_close(last: Seq<char>, quote: Seq<char>, ind1: Seq<char>, close: Seq<char>, nl: Seq<char>)
    ensures
        last + (quote + (ind1 + (close + nl))) == (last + quote) + ((ind1 + close) + nl),
{
    assert(last + (quote + (ind1 + (close + nl))) =~= (last + quote) + ((ind1 + close) + nl));
}

/// A piece between two quoted values: it closes the one and opens the
/// field of the other.
proof fn lemma_between(
    before: Seq<char>,
    quote: Seq<char>,
    ind2: Seq<char>,
    key: Seq<char>,
    sp: Seq<char>,
    value: Seq<char>,
    rest: Seq<char>,
)
    ensures
        before + ((quote + (ind2 + (key + (sp + quote)))) + ((value + quote) + rest)) == (before + quote) + ((ind2
            + (key + (sp + (quote + (value + quote))))) + rest),
{
    assert(before + ((quote + (ind2 + (key + (sp + quote)))) + ((value + quote) + rest)) =~= (before + quote) + ((
    ind2 + (key + (sp + (quote + (value + quote))))) + rest));
}

/// The piece that opens the first quoted value.
proof fn lemma_first_quoted(
    ind2: Seq<char>,
    key: Seq<char>,
    sp: Seq<char>,
    quote: Seq<char>,
    value: Seq<char>,
    rest: Seq<char>,
)
    ensures
        (ind2 + (key + (sp + quote))) + ((value + quote) + rest) == (ind2 + (key + (sp + (quote + (value + quote)))))
            + rest,
{
    assert((ind2 + (key + (sp + quote))) + ((value + quote) + rest) =~= (ind2 + (key + (sp + (quote + (value
        + quote))))) + rest);
}

/// The head of a record, behind a line break.
proof fn lemma_head(
    ind1: Seq<char>,
    name: Seq<char>,
    sp: Seq<char>,
    open: Seq<char>,
    ind2: Seq<char>,
    key: Seq<char>,
    value: Seq<char>,
    rest: Seq<char>,
)
    ensures
        (ind1 + (name + (sp + (open + (ind2 + (key + sp)))))) + (value + rest) == ind1 + (name + (sp + (open + ((ind2
            + (key + (sp + value))) + rest)))),
{
    assert((ind1 + (name + (sp + (open + (ind2 + (key + sp)))))) + (value + rest) =~= ind1 + (name + (sp + (open + ((
    ind2 + (key + (sp + value))) + rest)))));
}

/// Four fields and the end of a record, grouped as a line.
proof fn lemma_line_shape(
    ind1: Seq<char>,
    name: Seq<char>,
    sp: Seq<char>,
    open: Seq<char>,
    f1: Seq<char>,
    f2: Seq<char>,
    f3: Seq<char>,
    f4: Seq<char>,
    end: Seq<char>,
    nl: Seq<char>,
)
    ensures
        ind1 + (name + (sp + (open + (f1 + (f2 + (f3 + (f4 + (end + nl)))))))) == (ind1 + (name + (sp + (open + ((f1
            + (f2 + (f3 + f4))) + end))))) + nl,
{
    assert(ind1 + (name + (sp + (open + (f1 + (f2 + (f3 + (f4 + (end + nl)))))))) =~= (ind1 + (name + (sp + (open + ((
    f1 + (f2 + (f3 + f4))) + end))))) + nl);
}

/// Regrouping the pieces of a node's record into the pieces of its line.
proof fn lemma_regroup_node(
    nl: Seq<char>,
    lit1: Seq<char>,
    lit2: Seq<char>,
    lit3: Seq<char>,
    lit4: Seq<char>,
    lit5: Seq<char>,
    ind1: Seq<char>,
    ind2: Seq<char>,
    sp: Seq<char>,
    quote: Seq<char>,
    open: Seq<char>,
    close: Seq<char>,
    node: Seq<char>,
    id: Seq<char>,
    label: Seq<char>,
    sequence: Seq<char>,
    status: Seq<char>,
    d: Seq<char>,
    l: Seq<char>,
    s: Seq<char>,
    t: Seq<char>,
)
    requires
        nl + lit1 == ind1 + (node + (sp + (open + (ind2 + (id + sp))))),
        lit2 == ind2 + (label + (sp + quote)),
        lit3 == quote + (ind2 + (sequence + (sp + quote))),
        lit4 == quote + (ind2 + (status + (sp + quote))),
        lit5 == quote + (ind1 + (close + nl)),
    ensures
        nl + (lit1 + d + lit2 + l + lit3 + s + lit4 + t + lit5) == (ind1 + (node + (sp + (open + (((ind2 + (id + (sp
            + d))) + ((ind2 + (label + (sp + (quote + (l + quote))))) + ((ind2 + (sequence + (sp + (quote + (s
            + quote))))) + (ind2 + (status + (sp + (quote + (t + quote)))))))) + (ind1 + close)))))) + nl,
{
    let f1 = ind2 + (id + (sp + d));
    let f2 = ind2 + (label + (sp + (quote + (l + quote))));
    let f3 = ind2 + (sequence + (sp + (quote + (s + quote))));
    let f4 = ind2 + (status + (sp + (quote + (t + quote))));
    let end = (ind1 + close) + nl;
    lemma_chain(nl, lit1, d, lit2, l, lit3, s, lit4, t, lit5);
    lemma_close(t, quote, ind1, close, nl);
    let x4 = (t + quote) + end;
    assert(t + lit5 == x4);
    lemma_between(s, quote, ind2, status, sp, t, end);
    let x3 = (s + quote) + (f4 + end);
    assert(s + (lit4 + (t + lit5)) == x3);
    lemma_between(l, quote, ind2, sequence, sp, s, f4 + end);
    let x2 = (l + quote) + (f3 + (f4 + end));
    assert(l + (lit3 + (s + (lit4 + (t + lit5)))) == x2);
    lemma_first_quoted(ind2, label, sp, quote, l, f3 + (f4 + end));
    let x1 = f2 + (f3 + (f4 + end));
    assert(lit2 + (l + (lit3 + (s + (lit4 + (t + lit5))))) == x1);
    lemma_head(ind1, node, sp, open, ind2, id, d, x1);
    lemma_line_shape(ind1, node, sp, open, f1, f2, f3, f4, ind1 + close, nl);
}

/// A node's record begins on its own line; its line begins behind the line
/// before it. The characters are the same.
pub proof fn lemma_node_line(slot: nat, node: NodeView)
    ensures
        "\n"@ + node_text(slot, node) == node_line(slot, node) + "\n"@,
{
    reveal_strlit("\n");
    reveal_strlit("\tnode [\n\t\tid ");
    reveal_strlit("\n\t\tlabel \"");
    reveal_strlit("\"\n\t\tsequence \"");
    reveal_strlit("\"\n\t\tstatus \"");
    reveal_strlit("\"\n\t]\n");
    reveal_strlit("\n\t\t");
    reveal_strlit("\n\t");
    reveal_strlit(" ");
    reveal_strlit("\"");
    reveal_strlit("[");
    reveal_strlit("]");
    reveal_strlit("node");
    reveal_strlit("id");
    reveal_strlit("label");
    reveal_strlit("sequence");
    reveal_strlit("status");
    assert("\n"@ + "\tnode [\n\t\tid "@ =~= "\n\t"@ + ("node"@ + (" "@ + ("["@ + ("\n\t\t"@ + ("id"@ + " "@))))));
    assert("\n\t\tlabel \""@ =~= "\n\t\t"@ + ("label"@ + (" "@ + "\""@)));
    assert("\"\n\t\tsequence \""@ =~= "\""@ + ("\n\t\t"@ + ("sequence"@ + (" "@ + "\""@))));
    assert("\"\n\t\tstatus \""@ =~= "\""@ + ("\n\t\t"@ + ("status"@ + (" "@ + "\""@))));
    assert("\"\n\t]\n"@ =~= "\""@ + ("\n\t"@ + ("]"@ + "\n"@)));
    lemma_regroup_node(
        "\n"@,
        "\tnode [\n\t\tid "@,
        "\n\t\tlabel \""@,
        "\"\n\t\tsequence \""@,
        "\"\n\t\tstatus \""@,
        "\"\n\t]\n"@,
        "\n\t"@,
        "\n\t\t"@,
        " "@,
        "\""@,
        "["@,
        "]"@,
        "node"@,
        "id"@,
        "label"@,
        "sequence"@,
        "status"@,
        decimal_text(slot),
        label_text(node.id),
        node.sequence,
        status_text(node.status),
    );
}

/// Regrouping the pieces of an edge's record into the pieces of its line.
#[verifier::rlimit(100)]
#[verifier::spinoff_prover]
proof fn lemma_regroup_edge(
    nl: Seq<char>,
    lit1: Seq<char>,
    lit2: Seq<char>,
    lit3: Seq<char>,
    ind1: Seq<char>,
    ind2: Seq<char>,
    sp: Seq<char>,
    open: Seq<char>,
    close: Seq<char>,
    edge: Seq<char>,
    source: Seq<char>,
    target: Seq<char>,
    a: Seq<char>,
    b: Seq<char>,
)
    requires
        nl + lit1 == ind1 + (edge + (sp + (open + (ind2 + (source + sp))))),
        lit2 == ind2 + (target + sp),
        lit3 == ind1 + (close + nl),
    ensures
        nl + (lit1 + a + lit2 + b + lit3) == (ind1 + (edge + (sp + (open + (((ind2 + (source + (sp + a))) + (ind2 + (
        target + (sp + b)))) + (ind1 + close)))))) + nl,
{
    let head = nl + lit1;
    assert(nl + (lit1 + a + lit2 + b + lit3) =~= head + (a + (lit2 + (b + lit3))));
    assert(head + (a + (lit2 + (b + lit3))) =~= (ind1 + (edge + (sp + (open + (((ind2 + (source + (sp + a))) + (ind2
        + (target + (sp + b)))) + (ind1 + close)))))) + nl);
}

/// An edge's record and its line hold the same characters.
pub proof fn lemma_edge_line(edge: (int, int))
    ensures
        "\n"@ + edge_text(edge) == edge_line(edge) + "\n"@,
{
    reveal_strlit("\n");
    reveal_strlit("\tedge [\n\t\tsource ");
    reveal_strlit("\n\t\ttarget ");
    reveal_strlit("\n\t]\n");
    reveal_strlit("\n\t\t");
    reveal_strlit("\n\t");
    reveal_strlit(" ");
    reveal_strlit("[");
    reveal_strlit("]");
    reveal_strlit("edge");
    reveal_strlit("source");
    reveal_strlit("target");
    assert("\n"@ + "\tedge [\n\t\tsource "@ =~= "\n\t"@ + ("edge"@ + (" "@ + ("["@ + ("\n\t\t"@ + ("source"@ + " "@))))));
    assert("\n\t\ttarget "@ =~= "\n\t\t"@ + ("target"@ + " "@));
    assert("\n\t]\n"@ =~= "\n\t"@ + ("]"@ + "\n"@));
    lemma_regroup_edge(
        "\n"@,
        "\tedge [\n\t\tsource "@,
        "\n\t\ttarget "@,
        "\n\t]\n"@,
        "\n\t"@,
        "\n\t\t"@,
        " "@,
        "["@,
        "]"@,
        "edge"@,
        "source"@,
        "target"@,
        decimal_text(edge.0 as nat),
        decimal_text(edge.1 as nat),
    );
}

/// The bytes of a field, piece by piece.
pub proof fn lemma_field_bytes(key: Seq<char>, value: Seq<char>)
    ensures
        encode_utf8(field_text(key, value)) == encode_utf8("\n\t\t"@) + (encode_utf8(key) + (seq![0x20u8]
            + encode_utf8(value))),
        blank_bytes(encode_utf8("\n\t\t"@)),
        encode_utf8("\n\t\t"@).len() == 3,
        encode_utf8("\n\t\t"@)[0] == 0x0a,
{
    reveal_strlit("\n\t\t");
    reveal_strlit(" ");
    lemma_blank("\n\t\t"@);
    assert(" "@ =~= seq![' ']);
    lemma_single(' ');
    lemma_encode_concat("\n\t\t"@, key + (" "@ + value));
    lemma_encode_concat(key, " "@ + value);
    lemma_encode_concat(" "@, value);
}

/// Reading a field that holds a number.
pub proof fn lemma_read_int_field(text: Seq<u8>, from: int, key: Seq<char>, n: nat, rest: Seq<u8>)
    requires
        0 <= from <= text.len(),
        rest_at(text, from) == encode_utf8(field_text(key, decimal_text(n))) + rest,
        small_letters(key),
        n <= i64::MAX,
        rest.len() > 0,
        !in_class(ByteClass::NumberPart, rest[0]),
    ensures
        read_entries(text, from) == entries_after(
            seq![(key, ValueModel::Int(n as i64))],
            read_entries(text, from + encode_utf8(field_text(key, decimal_text(n))).len()),
        ),
        rest_at(text, from + encode_utf8(field_text(key, decimal_text(n))).len()) == rest,
{
    let blank = encode_utf8("\n\t\t"@);
    let k = encode_utf8(key);
    let digits = encode_utf8(decimal_text(n));
    let whole = encode_utf8(field_text(key, decimal_text(n)));
    lemma_field_bytes(key, decimal_text(n));
    lemma_key(key);
    lemma_decimal_bytes(n);
    assert(whole + rest =~= blank + (k + (seq![0x20u8] + (digits + rest))));
    lemma_piece(text, from, whole, rest);
    let at = from + blank.len() + k.len() + 1;
    assert(whole + rest =~= (blank + (k + seq![0x20u8])) + (digits + rest));
    lemma_piece(text, from, blank + (k + seq![0x20u8]), digits + rest);
    lemma_int_value(text, at, digits, rest);
    assert(is_digit(digits[0]));
    lemma_entry(text, from, blank, k, digits, rest, ValueModel::Int(n as i64));
}

/// Reading a field that holds a text.
pub proof fn lemma_read_text_field(text: Seq<u8>, from: int, key: Seq<char>, content: Seq<char>, rest: Seq<u8>)
    requires
        0 <= from <= text.len(),
        rest_at(text, from) == encode_utf8(field_text(key, quoted(content))) + rest,
        small_letters(key),
        free_of_quote(content),
    ensures
        read_entries(text, from) == entries_after(
            seq![(key, ValueModel::Text(content))],
            read_entries(text, from + encode_utf8(field_text(key, quoted(content))).len()),
        ),
        rest_at(text, from + encode_utf8(field_text(key, quoted(content))).len()) == rest,
{
    let blank = encode_utf8("\n\t\t"@);
    let k = encode_utf8(key);
    let body = encode_utf8(content);
    let quote = seq![0x22u8];
    let value = encode_utf8(quoted(content));
    let whole = encode_utf8(field_text(key, quoted(content)));
    lemma_field_bytes(key, quoted(content));
    lemma_key(key);
    lemma_no_quote(content);
    vstd::utf8::encode_utf8_decode_utf8(content);
    reveal_strlit("\"");
    assert("\""@ =~= seq!['"']);
    lemma_single('"');
    lemma_encode_concat("\""@, content + "\""@);
    lemma_encode_concat(content, "\""@);
    assert(value == quote + (body + quote));
    assert(whole + rest =~= blank + (k + (seq![0x20u8] + (value + rest))));
    lemma_piece(text, from, whole, rest);
    let at = from + blank.len() + k.len() + 1;
    assert(whole + rest =~= (blank + (k + seq![0x20u8])) + (value + rest));
    lemma_piece(text, from, blank + (k + seq![0x20u8]), value + rest);
    assert(value + rest =~= quote + (body + (quote + rest)));
    lemma_text_value(text, at, body, rest);
    assert(value[0] == 0x22u8);
    lemma_entry(text, from, blank, k, value, rest, ValueModel::Text(content));
}

/// The entries that a node's record holds.
pub open spec fn node_entries(slot: nat, node: NodeView) -> Seq<(Seq<char>, ValueModel)> {
    seq![
        ("id"@, ValueModel::Int(slot as i64)),
        ("label"@, ValueModel::Text(label_text(node.id))),
        ("sequence"@, ValueModel::Text(node.sequence)),
        ("status"@, ValueModel::Text(status_text(node.status))),
    ]
}

/// The entries that an edge's record holds.
pub open spec fn edge_entries(edge: (int, int)) -> Seq<(Seq<char>, ValueModel)> {
    seq![("source"@, ValueModel::Int(edge.0 as i64)), ("target"@, ValueModel::Int(edge.1 as i64))]
}

/// The word for a tag holds no double quote.
pub proof fn lemma_status_plain(status: Provenance)
    ensures
        free_of_quote(status_text(status)),
{
    reveal_strlit("REF");
    reveal_strlit("ALT");
    reveal_strlit("");
}

/// The keys of the records are small letters.
pub proof fn lemma_keys()
    ensures
        small_letters("graph"@),
        small_letters("node"@),
        small_letters("edge"@),
        small_letters("id"@),
        small_letters("label"@),
        small_letters("sequence"@),
        small_letters("status"@),
        small_letters("source"@),
        small_letters("target"@),
{
    reveal_strlit("graph");
    reveal_strlit("node");
    reveal_strlit("edge");
    reveal_strlit("id");
    reveal_strlit("label");
    reveal_strlit("sequence");
    reveal_strlit("status");
    reveal_strlit("source");
    reveal_strlit("target");
}

/// The bytes of a list, piece by piece.
pub proof fn lemma_list_bytes(fields: Seq<char>)
    ensures
        encode_utf8(list_text(fields)) == seq![0x5bu8] + (encode_utf8(fields) + (encode_utf8("\n\t"@) + seq![
            0x5du8,
        ])),
        blank_bytes(encode_utf8("\n\t"@)),
        encode_utf8("\n\t"@).len() == 2,
        encode_utf8("\n\t"@)[0] == 0x0a,
{
    reveal_strlit("\n\t");
    reveal_strlit("[");
    reveal_strlit("]");
    lemma_blank("\n\t"@);
    assert("["@ =~= seq!['[']);
    assert("]"@ =~= seq![']']);
    lemma_single('[');
    lemma_single(']');
    lemma_encode_concat("["@, fields + ("\n\t"@ + "]"@));
    lemma_encode_concat(fields, "\n\t"@ + "]"@);
    lemma_encode_concat("\n\t"@, "]"@);
}

/// Reading the list of a node's record.
pub proof fn lemma_read_node_value(text: Seq<u8>, at: int, slot: nat, node: NodeView, rest: Seq<u8>)
    requires
        0 <= at <= text.len(),
        rest_at(text, at) == encode_utf8(list_text(node_fields(slot, node))) + rest,
        slot <= i64::MAX,
        free_of_quote(label_text(node.id)),
        free_of_quote(node.sequence),
    ensures
        read_value(text, at) == Some(
            (
                ValueModel::List(node_entries(slot, node)),
                at + encode_utf8(list_text(node_fields(slot, node))).len(),
            ),
        ),
        encode_utf8(list_text(node_fields(slot, node))).len() > 0,
        encode_utf8(list_text(node_fields(slot, node)))[0] == 0x5b,
{
    let f1 = field_text("id"@, decimal_text(slot));
    let f2 = field_text("label"@, quoted(label_text(node.id)));
    let f3 = field_text("sequence"@, quoted(node.sequence));
    let f4 = field_text("status"@, quoted(status_text(node.status)));
    let b1 = encode_utf8(f1);
    let b2 = encode_utf8(f2);
    let b3 = encode_utf8(f3);
    let b4 = encode_utf8(f4);
    let ind = encode_utf8("\n\t"@);
    let close = seq![0x5du8];
    let whole = encode_utf8(list_text(node_fields(slot, node)));
    lemma_keys();
    lemma_status_plain(node.status);
    lemma_list_bytes(node_fields(slot, node));
    lemma_encode_concat(f1, f2 + (f3 + f4));
    lemma_encode_concat(f2, f3 + f4);
    lemma_encode_concat(f3, f4);
    lemma_field_bytes("label"@, quoted(label_text(node.id)));
    lemma_field_bytes("sequence"@, quoted(node.sequence));
    lemma_field_bytes("status"@, quoted(status_text(node.status)));
    let r4 = ind + (close + rest);
    let r3 = b4 + r4;
    let r2 = b3 + r3;
    let r1 = b2 + r2;
    let r0 = b1 + r1;
    assert(whole + rest =~= seq![0x5bu8] + r0);
    lemma_piece(text, at, whole, rest);
    lemma_piece(text, at, seq![0x5bu8], r0);
    let p1 = at + 1;
    assert(r1[0] == b2[0]);
    lemma_read_int_field(text, p1, "id"@, slot, r1);
    let p2 = p1 + b1.len();
    lemma_read_text_field(text, p2, "label"@, label_text(node.id), r2);
    let p3 = p2 + b2.len();
    lemma_read_text_field(text, p3, "sequence"@, node.sequence, r3);
    let p4 = p3 + b3.len();
    lemma_read_text_field(text, p4, "status"@, status_text(node.status), r4);
    let p5 = p4 + b4.len();
    assert((close + rest)[0] == 0x5du8);
    lemma_entries_end(text, p5, ind, close + rest);
    lemma_piece(text, p5, ind, close + rest);
    assert(read_entries(text, p1) == Some((node_entries(slot, node), p5 + 2))) by {
        let e1 = ("id"@, ValueModel::Int(slot as i64));
        let e2 = ("label"@, ValueModel::Text(label_text(node.id)));
        let e3 = ("sequence"@, ValueModel::Text(node.sequence));
        let e4 = ("status"@, ValueModel::Text(status_text(node.status)));
        let none = Seq::<(Seq<char>, ValueModel)>::empty();
        assert(seq![e4] + none =~= seq![e4]);
        assert(seq![e3] + seq![e4] =~= seq![e3, e4]);
        assert(seq![e2] + seq![e3, e4] =~= seq![e2, e3, e4]);
        assert(seq![e1] + seq![e2, e3, e4] =~= seq![e1, e2, e3, e4]);
    }
    let open = seq![0x5bu8];
    assert(text[at + 0] == open[0]);
    lemma_list_value(text, at, node_entries(slot, node), p5 + 2);
}

/// Reading the list of an edge's record.
pub proof fn lemma_read_edge_value(text: Seq<u8>, at: int, edge: (int, int), rest: Seq<u8>)
    requires
        0 <= at <= text.len(),
        rest_at(text, at) == encode_utf8(list_text(edge_fields(edge))) + rest,
        0 <= edge.0 <= i64::MAX,
        0 <= edge.1 <= i64::MAX,
    ensures
        read_value(text, at) == Some(
            (ValueModel::List(edge_entries(edge)), at + encode_utf8(list_text(edge_fields(edge))).len()),
        ),
        encode_utf8(list_text(edge_fields(edge))).len() > 0,
        encode_utf8(list_text(edge_fields(edge)))[0] == 0x5b,
{
    let f1 = field_text("source"@, decimal_text(edge.0 as nat));
    let f2 = field_text("target"@, decimal_text(edge.1 as nat));
    let b1 = encode_utf8(f1);
    let b2 = encode_utf8(f2);
    let ind = encode_utf8("\n\t"@);
    let close = seq![0x5du8];
    let whole = encode_utf8(list_text(edge_fields(edge)));
    lemma_keys();
    lemma_list_bytes(edge_fields(edge));
    lemma_encode_concat(f1, f2);
    lemma_field_bytes("target"@, decimal_text(edge.1 as nat));
    let r2 = ind + (close + rest);
    let r1 = b2 + r2;
    let r0 = b1 + r1;
    assert(whole + rest =~= seq![0x5bu8] + r0);
    lemma_piece(text, at, whole, rest);
    lemma_piece(text, at, seq![0x5bu8], r0);
    let p1 = at + 1;
    assert(r1[0] == b2[0]);
    lemma_read_int_field(text, p1, "source"@, edge.0 as nat, r1);
    let p2 = p1 + b1.len();
    assert(r2[0] == ind[0]);
    lemma_read_int_field(text, p2, "target"@, edge.1 as nat, r2);
    let p3 = p2 + b2.len();
    assert((close + rest)[0] == 0x5du8);
    lemma_entries_end(text, p3, ind, close + rest);
    lemma_piece(text, p3, ind, close + rest);
    assert(read_entries(text, p1) == Some((edge_entries(edge), p3 + 2))) by {
        let e1 = ("source"@, ValueModel::Int(edge.0 as i64));
        let e2 = ("target"@, ValueModel::Int(edge.1 as i64));
        let none = Seq::<(Seq<char>, ValueModel)>::empty();
        assert(seq![e2] + none =~= seq![e2]);
        assert(seq![e1] + seq![e2] =~= seq![e1, e2]);
    }
    let open = seq![0x5bu8];
    assert(text[at + 0] == open[0]);
    lemma_list_value(text, at, edge_entries(edge), p3 + 2);
}

/// The record of a node as the reader gives it.
pub open spec fn node_record(slot: nat, node: NodeView) -> (Seq<char>, ValueModel) {
    ("node"@, ValueModel::List(node_entries(slot, node)))
}

/// The record of an edge as the reader gives it.
pub open spec fn edge_record(edge: (int, int)) -> (Seq<char>, ValueModel) {
    ("edge"@, ValueModel::List(edge_entries(edge)))
}

/// The bytes of a line, piece by piece.
pub proof fn lemma_line_bytes(key: Seq<char>, fields: Seq<char>)
    ensures
        encode_utf8(line_text(key, fields)) == encode_utf8("\n\t"@) + (encode_utf8(key) + (seq![0x20u8]
            + encode_utf8(list_text(fields)))),
{
    reveal_strlit(" ");
    assert(" "@ =~= seq![' ']);
    lemma_single(' ');
    lemma_encode_concat("\n\t"@, key + (" "@ + list_text(fields)));
    lemma_encode_concat(key, " "@ + list_text(fields));
    lemma_encode_concat(" "@, list_text(fields));
}

/// Reading the line of a node.
pub proof fn lemma_read_node_line(text: Seq<u8>, from: int, slot: nat, node: NodeView, rest: Seq<u8>)
    requires
        0 <= from <= text.len(),
        rest_at(text, from) == encode_utf8(node_line(slot, node)) + rest,
        slot <= i64::MAX,
        free_of_quote(label_text(node.id)),
        free_of_quote(node.sequence),
    ensures
        read_entries(text, from) == entries_after(
            seq![node_record(slot, node)],
            read_entries(text, from + encode_utf8(node_line(slot, node)).len()),
        ),
        rest_at(text, from + encode_utf8(node_line(slot, node)).len()) == rest,
{
    let blank = encode_utf8("\n\t"@);
    let k = encode_utf8("node"@);
    let v = encode_utf8(list_text(node_fields(slot, node)));
    let whole = encode_utf8(node_line(slot, node));
    lemma_keys();
    lemma_key("node"@);
    lemma_line_bytes("node"@, node_fields(slot, node));
    lemma_list_bytes(node_fields(slot, node));
    assert(whole + rest =~= blank + (k + (seq![0x20u8] + (v + rest))));
    assert(whole + rest =~= (blank + (k + seq![0x20u8])) + (v + rest));
    lemma_piece(text, from, whole, rest);
    lemma_piece(text, from, blank + (k + seq![0x20u8]), v + rest);
    let at = from + blank.len() + k.len() + 1;
    lemma_read_node_value(text, at, slot, node, rest);
    lemma_entry(text, from, blank, k, v, rest, ValueModel::List(node_entries(slot, node)));
}

/// Reading the line of an edge.
pub proof fn lemma_read_edge_line(text: Seq<u8>, from: int, edge: (int, int), rest: Seq<u8>)
    requires
        0 <= from <= text.len(),
        rest_at(text, from) == encode_utf8(edge_line(edge)) + rest,
        0 <= edge.0 <= i64::MAX,
        0 <= edge.1 <= i64::MAX,
    ensures
        read_entries(text, from) == entries_after(
            seq![edge_record(edge)],
            read_entries(text, from + encode_utf8(edge_line(edge)).len()),
        ),
        rest_at(text, from + encode_utf8(edge_line(edge)).len()) == rest,
{
    let blank = encode_utf8("\n\t"@);
    let k = encode_utf8("edge"@);
    let v = encode_utf8(list_text(edge_fields(edge)));
    let whole = encode_utf8(edge_line(edge));
    lemma_keys();
    lemma_key("edge"@);
    lemma_line_bytes("edge"@, edge_fields(edge));
    lemma_list_bytes(edge_fields(edge));
    assert(whole + rest =~= blank + (k + (seq![0x20u8] + (v + rest))));
    assert(whole + rest =~= (blank + (k + seq![0x20u8])) + (v + rest));
    lemma_piece(text, from, whole, rest);
    lemma_piece(text, from, blank + (k + seq![0x20u8]), v + rest);
    let at = from + blank.len() + k.len() + 1;
    lemma_read_edge_value(text, at, edge, rest);
    lemma_entry(text, from, blank, k, v, rest, ValueModel::List(edge_entries(edge)));
}

/// The lines of the nodes from a slot on.
pub open spec fn node_lines_from(nodes: Seq<NodeView>, k: nat) -> Seq<char>
    decreases nodes.len() - k,
{
    if k >= nodes.len() {
        Seq::empty()
    } else {
        node_line(k, nodes[k as int]) + node_lines_from(nodes, k + 1)
    }
}

/// The records of the nodes from a slot on.
pub open spec fn node_records_from(nodes: Seq<NodeView>, k: nat) -> Seq<(Seq<char>, ValueModel)>
    decreases nodes.len() - k,
{
    if k >= nodes.len() {
        Seq::empty()
    } else {
        seq![node_record(k, nodes[k as int])] + node_records_from(nodes, k + 1)
    }
}

/// The lines of the edges from an index on.
pub open spec fn edge_lines_from(edges: Seq<(int, int)>, k: nat) -> Seq<char>
    decreases edges.len() - k,
{
    if k >= edges.len() {
        Seq::empty()
    } else {
        edge_line(edges[k as int]) + edge_lines_from(edges, k + 1)
    }
}

/// The records of the edges from an index on.
pub open spec fn edge_records_from(edges: Seq<(int, int)>, k: nat) -> Seq<(Seq<char>, ValueModel)>
    decreases edges.len() - k,
{
    if k >= edges.len() {
        Seq::empty()
    } else {
        seq![edge_record(edges[k as int])] + edge_records_from(edges, k + 1)
    }
}

/// Whether the store can be written so that it reads back: no label and no
/// sequence holds a double quote, which the text would take for the end of
/// the value.
pub open spec fn writable(g: GraphView) -> bool {
    forall|i: int|
        0 <= i < g.nodes.len() ==> free_of_quote(label_text((#[trigger] g.nodes[i]).id)) && free_of_quote(
            g.nodes[i].sequence,
        )
}

/// Reading the lines of the nodes from a slot on.
pub proof fn lemma_read_node_lines(
    text: Seq<u8>,
    from: int,
    g: GraphView,
    k: nat,
    rest: Seq<u8>,
    more: Seq<(Seq<char>, ValueModel)>,
    last: int,
)
    requires
        0 <= from <= text.len(),
        k <= g.nodes.len() <= i64::MAX,
        writable(g),
        rest_at(text, from) == encode_utf8(node_lines_from(g.nodes, k)) + rest,
        read_entries(text, from + encode_utf8(node_lines_from(g.nodes, k)).len()) == Some((more, last)),
    ensures
        read_entries(text, from) == Some((node_records_from(g.nodes, k) + more, last)),
    decreases g.nodes.len() - k,
{
    if k >= g.nodes.len() {
        assert(node_records_from(g.nodes, k) + more =~= more);
    } else {
        let node = g.nodes[k as int];
        let line = encode_utf8(node_line(k, node));
        let later = encode_utf8(node_lines_from(g.nodes, k + 1));
        lemma_encode_concat(node_line(k, node), node_lines_from(g.nodes, k + 1));
        assert((line + later) + rest =~= line + (later + rest));
        lemma_read_node_line(text, from, k, node, later + rest);
        lemma_read_node_lines(text, from + line.len(), g, k + 1, rest, more, last);
        assert(seq![node_record(k, node)] + (node_records_from(g.nodes, k + 1) + more) =~= node_records_from(
            g.nodes,
            k,
        ) + more);
    }
}

/// Reading the lines of the edges from an index on.
pub proof fn lemma_read_edge_lines(
    text: Seq<u8>,
    from: int,
    g: GraphView,
    k: nat,
    rest: Seq<u8>,
    more: Seq<(Seq<char>, ValueModel)>,
    last: int,
)
    requires
        0 <= from <= text.len(),
        k <= g.edges.len(),
        g.wf(),
        rest_at(text, from) == encode_utf8(edge_lines_from(g.edges, k)) + rest,
        read_entries(text, from + encode_utf8(edge_lines_from(g.edges, k)).len()) == Some((more, last)),
    ensures
        read_entries(text, from) == Some((edge_records_from(g.edges, k) + more, last)),
    decreases g.edges.len() - k,
{
    if k >= g.edges.len() {
        assert(edge_records_from(g.edges, k) + more =~= more);
    } else {
        let edge = g.edges[k as int];
        let line = encode_utf8(edge_line(edge));
        let later = encode_utf8(edge_lines_from(g.edges, k + 1));
        lemma_encode_concat(edge_line(edge), edge_lines_from(g.edges, k + 1));
        assert((line + later) + rest =~= line + (later + rest));
        assert(0 <= edge.0 <= edge.1 < g.nodes.len());
        lemma_read_edge_line(text, from, edge, later + rest);
        lemma_read_edge_lines(text, from + line.len(), g, k + 1, rest, more, last);
        assert(seq![edge_record(edge)] + (edge_records_from(g.edges, k + 1) + more) =~= edge_records_from(g.edges, k)
            + more);
    }
}

/// The lines of the nodes before a slot.
pub open spec fn node_lines_upto(nodes: Seq<NodeView>, k: nat) -> Seq<char>
    decreases k,
{
    if k == 0 || k > nodes.len() {
        Seq::empty()
    } else {
        node_lines_upto(nodes, (k - 1) as nat) + node_line((k - 1) as nat, nodes[k - 1])
    }
}

/// The lines of the edges before an index.
pub open spec fn edge_lines_upto(edges: Seq<(int, int)>, k: nat) -> Seq<char>
    decreases k,
{
    if k == 0 || k > edges.len() {
        Seq::empty()
    } else {
        edge_lines_upto(edges, (k - 1) as nat) + edge_line(edges[k - 1])
    }
}

/// Moving a line break from before a record to behind its line, for a list
/// that is one record longer.
proof fn lemma_line_break(nl: Seq<char>, before: Seq<char>, record: Seq<char>, lines: Seq<char>, line: Seq<char>)
    requires
        nl + before == lines + nl,
        nl + record == line + nl,
    ensures
        nl + (before + record) == (lines + line) + nl,
{
    assert(nl + (before + record) =~= (nl + before) + record);
    assert((lines + nl) + record =~= lines + (nl + record));
    assert(lines + (line + nl) =~= (lines + line) + nl);
}

/// The records of the first nodes and their lines hold the same
/// characters.
pub proof fn lemma_nodes_lines(nodes: Seq<NodeView>, k: nat)
    requires
        k <= nodes.len(),
    ensures
        "\n"@ + nodes_text(nodes.subrange(0, k as int)) == node_lines_upto(nodes, k) + "\n"@,
    decreases k,
{
    let nl = "\n"@;
    if k == 0 {
        assert(nodes.subrange(0, 0) =~= Seq::<NodeView>::empty());
        assert(nl + Seq::<char>::empty() =~= Seq::<char>::empty() + nl);
    } else {
        let first = nodes.subrange(0, k as int);
        assert(first.drop_last() =~= nodes.subrange(0, k - 1));
        assert(first.last() == nodes[k - 1]);
        lemma_nodes_lines(nodes, (k - 1) as nat);
        lemma_node_line((k - 1) as nat, nodes[k - 1]);
        lemma_line_break(
            nl,
            nodes_text(nodes.subrange(0, k - 1)),
            node_text((k - 1) as nat, nodes[k - 1]),
            node_lines_upto(nodes, (k - 1) as nat),
            node_line((k - 1) as nat, nodes[k - 1]),
        );
    }
}

/// The records of the first edges and their lines hold the same
/// characters.
pub proof fn lemma_edges_lines(edges: Seq<(int, int)>, k: nat)
    requires
        k <= edges.len(),
    ensures
        "\n"@ + edges_text(edges.subrange(0, k as int)) == edge_lines_upto(edges, k) + "\n"@,
    decreases k,
{
    let nl = "\n"@;
    if k == 0 {
        assert(edges.subrange(0, 0) =~= Seq::<(int, int)>::empty());
        assert(nl + Seq::<char>::empty() =~= Seq::<char>::empty() + nl);
    } else {
        let first = edges.subrange(0, k as int);
        assert(first.drop_last() =~= edges.subrange(0, k - 1));
        assert(first.last() == edges[k - 1]);
        lemma_edges_lines(edges, (k - 1) as nat);
        lemma_edge_line(edges[k - 1]);
        lemma_line_break(
            nl,
            edges_text(edges.subrange(0, k - 1)),
            edge_text(edges[k - 1]),
            edge_lines_upto(edges, (k - 1) as nat),
            edge_line(edges[k - 1]),
        );
    }
}

/// The lines before a slot and the lines from it on are all the lines.
pub proof fn lemma_node_lines_join(nodes: Seq<NodeView>, k: nat)
    requires
        k <= nodes.len(),
    ensures
        node_lines_upto(nodes, k) + node_lines_from(nodes, k) == node_lines_from(nodes, 0),
    decreases k,
{
    if k == 0 {
        assert(node_lines_upto(nodes, 0) + node_lines_from(nodes, 0) =~= node_lines_from(nodes, 0));
    } else {
        lemma_node_lines_join(nodes, (k - 1) as nat);
        let line = node_line((k - 1) as nat, nodes[k - 1]);
        assert((node_lines_upto(nodes, (k - 1) as nat) + line) + node_lines_from(nodes, k) =~= node_lines_upto(
            nodes,
            (k - 1) as nat,
        ) + (line + node_lines_from(nodes, k)));
    }
}

/// The lines before an index and the lines from it on are all the lines.
pub proof fn lemma_edge_lines_join(edges: Seq<(int, int)>, k: nat)
    requires
        k <= edges.len(),
    ensures
        edge_lines_upto(edges, k) + edge_lines_from(edges, k) == edge_lines_from(edges, 0),
    decreases k,
{
    if k == 0 {
        assert(edge_lines_upto(edges, 0) + edge_lines_from(edges, 0) =~= edge_lines_from(edges, 0));
    } else {
        lemma_edge_lines_join(edges, (k - 1) as nat);
        let line = edge_line(edges[k - 1]);
        assert((edge_lines_upto(edges, (k - 1) as nat) + line) + edge_lines_from(edges, k) =~= edge_lines_upto(
            edges,
            (k - 1) as nat,
        ) + (line + edge_lines_from(edges, k)));
    }
}

/// The list under `graph` as it is written: `[`, the lines of the nodes and
/// of the edges, a line break and `]`.
pub open spec fn graph_value(g: GraphView) -> Seq<char> {
    "["@ + (node_lines_from(g.nodes, 0) + (edge_lines_from(g.edges, 0) + ("\n"@ + "]"@)))
}

/// Regrouping the document into its one entry.
proof fn lemma_top(
    graph: Seq<char>,
    sp: Seq<char>,
    open: Seq<char>,
    nl: Seq<char>,
    close: Seq<char>,
    nodes: Seq<char>,
    edges: Seq<char>,
    node_lines: Seq<char>,
    edge_lines: Seq<char>,
)
    requires
        nl + nodes == node_lines + nl,
        nl + edges == edge_lines + nl,
    ensures
        (graph + (sp + (open + nl))) + nodes + edges + (close + nl) == graph + (sp + ((open + (node_lines + (
        edge_lines + (nl + close)))) + nl)),
{
    let head = graph + (sp + open);
    assert((graph + (sp + (open + nl))) + nodes =~= head + (nl + nodes));
    assert(head + (node_lines + nl) + edges =~= (head + node_lines) + (nl + edges));
    assert((head + node_lines) + (edge_lines + nl) + (close + nl) =~= graph + (sp + ((open + (node_lines + (
    edge_lines + (nl + close)))) + nl)));
}

/// The text of a store is the entry `graph` with its list, and a line
/// break.
pub proof fn lemma_gml_shape(g: GraphView)
    ensures
        gml_text(g) == "graph"@ + (" "@ + (graph_value(g) + "\n"@)),
{
    reveal_strlit("graph [\n");
    reveal_strlit("]\n");
    reveal_strlit("graph");
    reveal_strlit(" ");
    reveal_strlit("[");
    reveal_strlit("]");
    reveal_strlit("\n");
    assert("graph [\n"@ =~= "graph"@ + (" "@ + ("["@ + "\n"@)));
    assert("]\n"@ =~= "]"@ + "\n"@);
    lemma_nodes_lines(g.nodes, g.nodes.len());
    lemma_edges_lines(g.edges, g.edges.len());
    lemma_node_lines_join(g.nodes, g.nodes.len());
    lemma_edge_lines_join(g.edges, g.edges.len());
    assert(g.nodes.subrange(0, g.nodes.len() as int) =~= g.nodes);
    assert(g.edges.subrange(0, g.edges.len() as int) =~= g.edges);
    assert(node_lines_upto(g.nodes, g.nodes.len()) + node_lines_from(g.nodes, g.nodes.len()) =~= node_lines_upto(
        g.nodes,
        g.nodes.len(),
    ));
    assert(edge_lines_upto(g.edges, g.edges.len()) + edge_lines_from(g.edges, g.edges.len()) =~= edge_lines_upto(
        g.edges,
        g.edges.len(),
    ));
    lemma_top(
        "graph"@,
        " "@,
        "["@,
        "\n"@,
        "]"@,
        nodes_text(g.nodes),
        edges_text(g.edges),
        node_lines_from(g.nodes, 0),
        edge_lines_from(g.edges, 0),
    );
}

/// The records that a store writes: one for every node, by slot, then one
/// for every edge, in their order.
pub open spec fn records_of(g: GraphView) -> Seq<(Seq<char>, ValueModel)> {
    node_records_from(g.nodes, 0) + edge_records_from(g.edges, 0)
}

/// The bytes of the list under `graph`, piece by piece.
proof fn lemma_graph_value_bytes(g: GraphView)
    ensures
        encode_utf8(graph_value(g)) == seq![0x5bu8] + (encode_utf8(node_lines_from(g.nodes, 0)) + (encode_utf8(
            edge_lines_from(g.edges, 0),
        ) + (seq![0x0au8] + seq![0x5du8]))),
{
    reveal_strlit("[");
    reveal_strlit("]");
    reveal_strlit("\n");
    assert("["@ =~= seq!['[']);
    assert("]"@ =~= seq![']']);
    assert("\n"@ =~= seq!['\n']);
    lemma_single('[');
    lemma_single(']');
    lemma_single('\n');
    lemma_encode_concat("["@, node_lines_from(g.nodes, 0) + (edge_lines_from(g.edges, 0) + ("\n"@ + "]"@)));
    lemma_encode_concat(node_lines_from(g.nodes, 0), edge_lines_from(g.edges, 0) + ("\n"@ + "]"@));
    lemma_encode_concat(edge_lines_from(g.edges, 0), "\n"@ + "]"@);
    lemma_encode_concat("\n"@, "]"@);
}

/// The bytes of the text of a store, piece by piece.
proof fn lemma_document_bytes(g: GraphView)
    ensures
        encode_utf8(gml_text(g)) == encode_utf8("graph"@) + (seq![0x20u8] + (encode_utf8(graph_value(g)) + seq![
            0x0au8,
        ])),
{
    lemma_gml_shape(g);
    reveal_strlit(" ");
    reveal_strlit("\n");
    assert(" "@ =~= seq![' ']);
    assert("\n"@ =~= seq!['\n']);
    lemma_single(' ');
    lemma_single('\n');
    lemma_encode_concat("graph"@, " "@ + (graph_value(g) + "\n"@));
    lemma_encode_concat(" "@, graph_value(g) + "\n"@);
    lemma_encode_concat(graph_value(g), "\n"@);
}

/// Reading the list under `graph`.
proof fn lemma_read_graph_value(text: Seq<u8>, at: int, g: GraphView, rest: Seq<u8>)
    requires
        0 <= at <= text.len(),
        rest_at(text, at) == encode_utf8(graph_value(g)) + rest,
        g.wf(),
        writable(g),
    ensures
        read_value(text, at) == Some((ValueModel::List(records_of(g)), at + encode_utf8(graph_value(g)).len())),
        encode_utf8(graph_value(g)).len() > 0,
        encode_utf8(graph_value(g))[0] == 0x5b,
{
    let open = seq![0x5bu8];
    let close = seq![0x5du8];
    let nl = seq![0x0au8];
    let node_lines = encode_utf8(node_lines_from(g.nodes, 0));
    let edge_lines = encode_utf8(edge_lines_from(g.edges, 0));
    let value = encode_utf8(graph_value(g));
    let nothing = Seq::<(Seq<char>, ValueModel)>::empty();
    lemma_graph_value_bytes(g);
    let after_edges = nl + (close + rest);
    let after_nodes = edge_lines + after_edges;
    let inner = node_lines + after_nodes;
    assert(value + rest =~= open + inner);
    lemma_piece(text, at, value, rest);
    lemma_piece(text, at, open, inner);
    assert(text[at + 0] == open[0]);
    let p_nodes: int = at + 1;
    lemma_piece(text, p_nodes, node_lines, after_nodes);
    let p_edges: int = p_nodes + node_lines.len();
    lemma_piece(text, p_edges, edge_lines, after_edges);
    let p_end: int = p_edges + edge_lines.len();
    assert((close + rest)[0] == 0x5du8);
    lemma_entries_end(text, p_end, nl, close + rest);
    lemma_piece(text, p_end, nl, close + rest);
    lemma_read_edge_lines(text, p_edges, g, 0, after_edges, nothing, p_end + 1);
    assert(edge_records_from(g.edges, 0) + nothing =~= edge_records_from(g.edges, 0));
    lemma_read_node_lines(text, p_nodes, g, 0, after_nodes, edge_records_from(g.edges, 0), p_end + 1);
    lemma_list_value(text, at, records_of(g), p_end + 1);
}

/// The document that a store writes: one entry `graph`, whose list holds
/// the store's records.
pub open spec fn document_of(g: GraphView) -> Seq<(Seq<char>, ValueModel)> {
    seq![("graph"@, ValueModel::List(records_of(g)))]
}

/// What a store writes, the reader reads back. The text of a store whose
/// labels and sequences hold no double quote is a document, and the document
/// is the store's: every node's record with its slot, label, sequence and
/// status, and every edge's with its two slots.
pub proof fn lemma_read_back(g: GraphView)
    requires
        g.wf(),
        writable(g),
    ensures
        read_document(encode_utf8(gml_text(g))) == Some(document_of(g)),
{
    let text = encode_utf8(gml_text(g));
    let key = encode_utf8("graph"@);
    let space = seq![0x20u8];
    let nl = seq![0x0au8];
    let none = Seq::<u8>::empty();
    let value = encode_utf8(graph_value(g));
    let nothing = Seq::<(Seq<char>, ValueModel)>::empty();
    lemma_document_bytes(g);
    lemma_keys();
    lemma_key("graph"@);
    assert(rest_at(text, 0) =~= text);
    let at: int = key.len() as int + 1;
    assert(text =~= (key + space) + (value + nl));
    lemma_piece(text, 0, key + space, value + nl);
    lemma_read_graph_value(text, at, g, nl);
    lemma_piece(text, at, value, nl);
    assert(nl =~= nl + none);
    lemma_entries_end(text, at + value.len(), nl, none);
    assert(text =~= none + (key + (space + (value + nl))));
    lemma_entry(text, 0, none, key, value, nl, ValueModel::List(records_of(g)));
    assert(seq![("graph"@, ValueModel::List(records_of(g)))] + nothing =~= document_of(g));
    assert(read_entries(text, 0) == Some((document_of(g), text.len() as int)));
    reveal_strlit("graph");
    reveal_strlit("Creator");
    assert("graph"@.len() != "Creator"@.len());
}

/// What an entry holds.
pub open spec fn entry_model(entry: (String, GMLValue)) -> (Seq<char>, ValueModel) {
    (entry.0@, value_model(entry.1))
}

/// What the entries of a list hold.
pub open spec fn models(attrs: Seq<(String, GMLValue)>) -> Seq<(Seq<char>, ValueModel)> {
    Seq::new(attrs.len(), |i: int| entry_model(attrs[i]))
}

/// Whether a node that was read shows a node of the store: its id is the
/// slot, its label the label of the slot's node, and its attributes hold the
/// node's sequence and the word for its tag.
pub open spec fn shows_node(read: NodeModel, g: GraphView) -> bool {
    &&& 0 <= read.id < g.nodes.len()
    &&& read.label is Some
    &&& read.label.unwrap()@ == label_text(g.nodes[read.id as int].id)
    &&& text_under(read.attrs, "sequence"@) is Some
    &&& text_under(read.attrs, "sequence"@).unwrap()@ == g.nodes[read.id as int].sequence
    &&& text_under(read.attrs, "status"@) is Some
    &&& text_under(read.attrs, "status"@).unwrap()@ == status_text(g.nodes[read.id as int].status)
}

/// Whether an edge that was read shows an edge of the store.
pub open spec fn shows_edge(read: EdgeModel, g: GraphView) -> bool {
    &&& g.edges.contains((read.source as int, read.target as int))
    &&& read.label is None
    &&& read.attrs.len() == 0
}

/// The keys of the records differ from one another.
pub proof fn lemma_keys_differ()
    ensures
        "id"@ != "label"@,
        "id"@ != "sequence"@,
        "id"@ != "status"@,
        "label"@ != "sequence"@,
        "label"@ != "status"@,
        "sequence"@ != "status"@,
        "source"@ != "target"@,
        "source"@ != "label"@,
        "target"@ != "label"@,
        "node"@ != "edge"@,
        "node"@ != "id"@,
        "node"@ != "directed"@,
        "node"@ != "label"@,
        "edge"@ != "id"@,
        "edge"@ != "directed"@,
        "edge"@ != "label"@,
        "graph"@ != "node"@,
        "graph"@ != "edge"@,
{
    reveal_strlit("id");
    reveal_strlit("label");
    reveal_strlit("sequence");
    reveal_strlit("status");
    reveal_strlit("source");
    reveal_strlit("target");
    reveal_strlit("node");
    reveal_strlit("edge");
    reveal_strlit("directed");
    reveal_strlit("graph");
    assert("id"@.len() == 2);
    assert("label"@.len() == 5);
    assert("sequence"@.len() == 8);
    assert("status"@.len() == 6);
    assert("source"@.len() == 6);
    assert("target"@.len() == 6);
    assert("node"@.len() == 4);
    assert("edge"@.len() == 4);
    assert("directed"@.len() == 8);
    assert("graph"@.len() == 5);
    assert("node"@[0] != "edge"@[0]);
    assert("source"@[0] != "target"@[0]);
    assert("label"@[0] != "graph"@[0]);
}

/// Reading a node out of a list that holds a node's record.
pub proof fn lemma_node_of_record(attrs: Seq<(String, GMLValue)>, slot: nat, node: NodeView)
    requires
        models(attrs) == node_entries(slot, node),
        slot <= i64::MAX,
    ensures
        node_of(attrs) is Ok,
        node_of(attrs).unwrap().id == slot,
        node_of(attrs).unwrap().label is Some,
        node_of(attrs).unwrap().label.unwrap()@ == label_text(node.id),
        text_under(node_of(attrs).unwrap().attrs, "sequence"@) is Some,
        text_under(node_of(attrs).unwrap().attrs, "sequence"@).unwrap()@ == node.sequence,
        text_under(node_of(attrs).unwrap().attrs, "status"@) is Some,
        text_under(node_of(attrs).unwrap().attrs, "status"@).unwrap()@ == status_text(node.status),
{
    lemma_keys_differ();
    let m = models(attrs);
    assert(m.len() == attrs.len());
    assert(node_entries(slot, node).len() == 4);
    assert(attrs.len() == 4);
    assert(m[0] == entry_model(attrs[0]));
    assert(m[1] == entry_model(attrs[1]));
    assert(m[2] == entry_model(attrs[2]));
    assert(m[3] == entry_model(attrs[3]));
    assert(is_first(attrs, "id"@, 0));
    lemma_first_key(attrs, "id"@, 0);
    let a1 = without(attrs, 0);
    assert(a1.len() == 3);
    assert(a1[0] == attrs[3]);
    assert(a1[1] == attrs[1]);
    assert(a1[2] == attrs[2]);
    assert(is_first(a1, "label"@, 1));
    lemma_first_key(a1, "label"@, 1);
    let a2 = without(a1, 1);
    assert(a2.len() == 2);
    assert(a2[0] == attrs[3]);
    assert(a2[1] == attrs[2]);
    assert(is_first(a2, "sequence"@, 1));
    lemma_first_key(a2, "sequence"@, 1);
    assert(is_first(a2, "status"@, 0));
    lemma_first_key(a2, "status"@, 0);
}

/// Reading an edge out of a list that holds an edge's record.
pub proof fn lemma_edge_of_record(attrs: Seq<(String, GMLValue)>, edge: (int, int))
    requires
        models(attrs) == edge_entries(edge),
        0 <= edge.0 <= i64::MAX,
        0 <= edge.1 <= i64::MAX,
    ensures
        edge_of(attrs) is Ok,
        edge_of(attrs).unwrap().source == edge.0,
        edge_of(attrs).unwrap().target == edge.1,
        edge_of(attrs).unwrap().label is None,
        edge_of(attrs).unwrap().attrs.len() == 0,
{
    lemma_keys_differ();
    let m = models(attrs);
    assert(m.len() == attrs.len());
    assert(edge_entries(edge).len() == 2);
    assert(attrs.len() == 2);
    assert(m[0] == entry_model(attrs[0]));
    assert(m[1] == entry_model(attrs[1]));
    assert(is_first(attrs, "source"@, 0));
    lemma_first_key(attrs, "source"@, 0);
    let a1 = without(attrs, 0);
    assert(a1.len() == 1);
    assert(a1[0] == attrs[1]);
    assert(is_first(a1, "target"@, 0));
    lemma_first_key(a1, "target"@, 0);
    let a2 = without(a1, 0);
    assert(a2.len() == 0);
    assert forall|i: int| !#[trigger] is_first(a2, "label"@, i) by {}
}

/// The records of the nodes from a slot on, one by one.
pub proof fn lemma_node_records(nodes: Seq<NodeView>, k: nat)
    requires
        k <= nodes.len(),
    ensures
        node_records_from(nodes, k).len() == nodes.len() - k,
        forall|j: int|
            0 <= j < nodes.len() - k ==> #[trigger] node_records_from(nodes, k)[j] == node_record(
                (k + j) as nat,
                nodes[k + j],
            ),
    decreases nodes.len() - k,
{
    if k < nodes.len() {
        lemma_node_records(nodes, k + 1);
        assert forall|j: int| 0 <= j < nodes.len() - k implies #[trigger] node_records_from(nodes, k)[j]
            == node_record((k + j) as nat, nodes[k + j]) by {
            if j > 0 {
                assert(node_records_from(nodes, k)[j] == node_records_from(nodes, k + 1)[j - 1]);
            }
        }
    }
}

/// The records of the edges from an index on, one by one.
pub proof fn lemma_edge_records(edges: Seq<(int, int)>, k: nat)
    requires
        k <= edges.len(),
    ensures
        edge_records_from(edges, k).len() == edges.len() - k,
        forall|j: int|
            0 <= j < edges.len() - k ==> #[trigger] edge_records_from(edges, k)[j] == edge_record(edges[k + j]),
    decreases edges.len() - k,
{
    if k < edges.len() {
        lemma_edge_records(edges, k + 1);
        assert forall|j: int| 0 <= j < edges.len() - k implies #[trigger] edge_records_from(edges, k)[j]
            == edge_record(edges[k + j]) by {
            if j > 0 {
                assert(edge_records_from(edges, k)[j] == edge_records_from(edges, k + 1)[j - 1]);
            }
        }
    }
}

/// The records of a store, one by one: the nodes' first, then the edges'.
pub proof fn lemma_records(g: GraphView)
    ensures
        records_of(g).len() == g.nodes.len() + g.edges.len(),
        forall|r: int|
            0 <= r < g.nodes.len() ==> #[trigger] records_of(g)[r] == node_record(r as nat, g.nodes[r]),
        forall|r: int|
            g.nodes.len() <= r < g.nodes.len() + g.edges.len() ==> #[trigger] records_of(g)[r] == edge_record(
                g.edges[r - g.nodes.len()],
            ),
{
    lemma_node_records(g.nodes, 0);
    lemma_edge_records(g.edges, 0);
    assert forall|r: int| 0 <= r < g.nodes.len() implies #[trigger] records_of(g)[r] == node_record(
        r as nat,
        g.nodes[r],
    ) by {
        assert(records_of(g)[r] == node_records_from(g.nodes, 0)[r]);
    }
    assert forall|r: int| g.nodes.len() <= r < g.nodes.len() + g.edges.len() implies #[trigger] records_of(g)[r]
        == edge_record(g.edges[r - g.nodes.len()]) by {
        assert(records_of(g)[r] == edge_records_from(g.edges, 0)[r - g.nodes.len()]);
    }
}

/// Whether every entry of a list holds a record of the store, each entry
/// another one: `origin` names the record of each entry.
pub open spec fn traced(attrs: Seq<(String, GMLValue)>, origin: Seq<int>, g: GraphView) -> bool {
    &&& origin.len() == attrs.len()
    &&& origin.no_duplicates()
    &&& forall|j: int|
        0 <= j < attrs.len() ==> 0 <= #[trigger] origin[j] < records_of(g).len() && entry_model(attrs[j])
            == records_of(g)[origin[j]]
}

/// Taking an entry out of a traced list leaves a traced list.
proof fn lemma_traced_without(attrs: Seq<(String, GMLValue)>, origin: Seq<int>, g: GraphView, i: int) -> (left:
    Seq<int>)
    requires
        traced(attrs, origin, g),
        0 <= i < attrs.len(),
    ensures
        traced(without(attrs, i), left, g),
        forall|j: int| 0 <= j < left.len() ==> origin.contains(#[trigger] left[j]) && left[j] != origin[i],
{
    let left = origin.update(i, origin.last()).drop_last();
    let rest = without(attrs, i);
    assert forall|j: int| 0 <= j < left.len() implies origin.contains(#[trigger] left[j]) && left[j] != origin[i] by {
        if j == i {
            assert(left[j] == origin[origin.len() - 1]);
        } else {
            assert(left[j] == origin[j]);
        }
    }
    assert forall|a: int, b: int| 0 <= a < left.len() && 0 <= b < left.len() && a != b implies left[a] != left[b] by {
        let x = if a == i { origin.len() - 1 } else { a };
        let y = if b == i { origin.len() - 1 } else { b };
        assert(left[a] == origin[x]);
        assert(left[b] == origin[y]);
    }
    assert forall|j: int| 0 <= j < rest.len() implies 0 <= #[trigger] left[j] < records_of(g).len() && entry_model(
        rest[j],
    ) == records_of(g)[left[j]] by {
        let x = if j == i { origin.len() - 1 } else { j };
        assert(left[j] == origin[x]);
        assert(rest[j] == attrs[x]);
    }
    left
}

/// Reading the nodes out of a traced list: every node that is read shows
/// the store's node of its slot, no two the same, and what is left holds the
/// records of edges.
proof fn lemma_take_nodes(attrs: Seq<(String, GMLValue)>, origin: Seq<int>, g: GraphView) -> (left: Seq<int>)
    requires
        g.wf(),
        traced(attrs, origin, g),
    ensures
        nodes_of(attrs) is Ok,
        traced(nodes_of(attrs).unwrap().1, left, g),
        forall|j: int| 0 <= j < left.len() ==> origin.contains(#[trigger] left[j]) && left[j] >= g.nodes.len(),
        forall|k: int|
            0 <= k < nodes_of(attrs).unwrap().0.len() ==> shows_node(#[trigger] nodes_of(attrs).unwrap().0[k], g)
                && origin.contains(nodes_of(attrs).unwrap().0[k].id as int),
        forall|j: int, k: int|
            0 <= j < k < nodes_of(attrs).unwrap().0.len() ==> (#[trigger] nodes_of(attrs).unwrap().0[j]).id != (
            #[trigger] nodes_of(attrs).unwrap().0[k]).id,
    decreases attrs.len(),
{
    lemma_records(g);
    lemma_keys_differ();
    if has_key(attrs, "node"@) {
        lemma_has_key(attrs, "node"@);
        let i = first_key(attrs, "node"@);
        let slot = origin[i];
        assert(entry_model(attrs[i]) == records_of(g)[slot]);
        if slot >= g.nodes.len() {
            assert(records_of(g)[slot] == edge_record(g.edges[slot - g.nodes.len()]));
        }
        assert(slot < g.nodes.len());
        let node = g.nodes[slot];
        assert(records_of(g)[slot] == node_record(slot as nat, node));
        let inside = match attrs[i].1 {
            GMLValue::GMLObject(obj) => obj.pairs,
            _ => arbitrary(),
        };
        assert(attrs[i].1 is GMLObject);
        lemma_entries_model(inside, inside@.len());
        assert(models(inside@) =~= node_entries(slot as nat, node));
        lemma_node_of_record(inside@, slot as nat, node);
        let rest = without(attrs, i);
        let rest_origin = lemma_traced_without(attrs, origin, g, i);
        let left = lemma_take_nodes(rest, rest_origin, g);
        let first = node_of(inside@).unwrap();
        let later = nodes_of(rest).unwrap().0;
        let taken = nodes_of(attrs).unwrap().0;
        assert(taken == seq![first] + later);
        assert forall|k: int| 0 <= k < taken.len() implies shows_node(#[trigger] taken[k], g) && origin.contains(
            taken[k].id as int,
        ) by {
            if k > 0 {
                assert(taken[k] == later[k - 1]);
                let x = rest_origin.index_of(later[k - 1].id as int);
                assert(origin.contains(rest_origin[x]));
            }
        }
        assert forall|j: int, k: int| 0 <= j < k < taken.len() implies (#[trigger] taken[j]).id != (
        #[trigger] taken[k]).id by {
            assert(taken[k] == later[k - 1]);
            let x = rest_origin.index_of(later[k - 1].id as int);
            assert(rest_origin[x] != origin[i]);
            if j > 0 {
                assert(taken[j] == later[j - 1]);
            }
        }
        assert forall|j: int| 0 <= j < left.len() implies origin.contains(#[trigger] left[j]) && left[j]
            >= g.nodes.len() by {
            let x = rest_origin.index_of(left[j]);
            assert(origin.contains(rest_origin[x]));
        }
        left
    } else {
        assert forall|j: int| 0 <= j < origin.len() implies origin.contains(#[trigger] origin[j]) && origin[j]
            >= g.nodes.len() by {
            if origin[j] < g.nodes.len() {
                assert(entry_model(attrs[j]) == records_of(g)[origin[j]]);
                lemma_key_found(attrs, "node"@, j);
            }
        }
        origin
    }
}

/// Whether an edge that was read is one of the edges that `origin` names.
pub open spec fn edge_from(read: EdgeModel, origin: Seq<int>, g: GraphView) -> bool {
    exists|r: int|
        origin.contains(r) && g.nodes.len() <= r < g.nodes.len() + g.edges.len() && #[trigger] g.edges[r
            - g.nodes.len()] == (read.source as int, read.target as int)
}

/// Reading the edges out of a traced list of edge records: every edge that
/// is read shows an edge of the store, no two the same, and nothing is left.
proof fn lemma_take_edges(attrs: Seq<(String, GMLValue)>, origin: Seq<int>, g: GraphView)
    requires
        g.wf(),
        traced(attrs, origin, g),
        forall|j: int| 0 <= j < origin.len() ==> #[trigger] origin[j] >= g.nodes.len(),
    ensures
        edges_of(attrs) is Ok,
        edges_of(attrs).unwrap().1.len() == 0,
        edges_of(attrs).unwrap().0.len() == attrs.len(),
        forall|k: int|
            0 <= k < edges_of(attrs).unwrap().0.len() ==> shows_edge(#[trigger] edges_of(attrs).unwrap().0[k], g)
                && edge_from(edges_of(attrs).unwrap().0[k], origin, g),
        forall|j: int, k: int|
            0 <= j < k < edges_of(attrs).unwrap().0.len() ==> (
                (#[trigger] edges_of(attrs).unwrap().0[j]).source,
                edges_of(attrs).unwrap().0[j].target,
            ) != ((#[trigger] edges_of(attrs).unwrap().0[k]).source, edges_of(attrs).unwrap().0[k].target),
    decreases attrs.len(),
{
    lemma_records(g);
    lemma_keys_differ();
    let n = g.nodes.len();
    if attrs.len() > 0 {
        assert(origin[0] >= n);
        assert(entry_model(attrs[0]) == records_of(g)[origin[0]]);
        lemma_key_found(attrs, "edge"@, 0);
        lemma_has_key(attrs, "edge"@);
        let i = first_key(attrs, "edge"@);
        let r = origin[i];
        assert(r >= n);
        assert(entry_model(attrs[i]) == records_of(g)[r]);
        let edge = g.edges[r - n];
        assert(0 <= edge.0 <= edge.1 < g.nodes.len());
        let inside = match attrs[i].1 {
            GMLValue::GMLObject(obj) => obj.pairs,
            _ => arbitrary(),
        };
        assert(attrs[i].1 is GMLObject);
        lemma_entries_model(inside, inside@.len());
        assert(models(inside@) =~= edge_entries(edge));
        lemma_edge_of_record(inside@, edge);
        let rest = without(attrs, i);
        let rest_origin = lemma_traced_without(attrs, origin, g, i);
        assert forall|j: int| 0 <= j < rest_origin.len() implies #[trigger] rest_origin[j] >= n by {
            let x = origin.index_of(rest_origin[j]);
            assert(origin[x] >= n);
        }
        lemma_take_edges(rest, rest_origin, g);
        let first = edge_of(inside@).unwrap();
        let later = edges_of(rest).unwrap().0;
        let taken = edges_of(attrs).unwrap().0;
        assert(taken == seq![first] + later);
        assert(origin.contains(r));
        assert(edge_from(first, origin, g));
        assert forall|k: int| 0 <= k < taken.len() implies shows_edge(#[trigger] taken[k], g) && edge_from(
            taken[k],
            origin,
            g,
        ) by {
            if k > 0 {
                assert(taken[k] == later[k - 1]);
                let q = choose|q: int|
                    rest_origin.contains(q) && n <= q < n + g.edges.len() && #[trigger] g.edges[q - n] == (
                        later[k - 1].source as int,
                        later[k - 1].target as int,
                    );
                let x = rest_origin.index_of(q);
                assert(origin.contains(rest_origin[x]));
            }
        }
        assert forall|j: int, k: int| 0 <= j < k < taken.len() implies ((#[trigger] taken[j]).source, taken[j].target)
            != ((#[trigger] taken[k]).source, taken[k].target) by {
            assert(taken[k] == later[k - 1]);
            if j > 0 {
                assert(taken[j] == later[j - 1]);
            } else {
                let q = choose|q: int|
                    rest_origin.contains(q) && n <= q < n + g.edges.len() && #[trigger] g.edges[q - n] == (
                        later[k - 1].source as int,
                        later[k - 1].target as int,
                    );
                let x = rest_origin.index_of(q);
                assert(rest_origin[x] != origin[i]);
                assert(g.edges[q - n] != g.edges[r - n]);
            }
        }
    } else {
        assert forall|i: int| !#[trigger] is_first(attrs, "edge"@, i) by {}
    }
}

/// What the graph reader makes of the document that a store writes: a graph
/// without id, direction, label or attributes of its own, with a node for
/// every node of the store and an edge for every edge. Every node that is
/// read shows the store's node of its slot, and every edge one of the
/// store's edges; no two show the same.
pub proof fn lemma_graph_read_back(g: GraphView, doc: Seq<(String, GMLValue)>)
    requires
        g.wf(),
        models(doc) == document_of(g),
    ensures
        document_graph(doc) is Ok,
        document_graph(doc).unwrap().id is None,
        document_graph(doc).unwrap().directed is None,
        document_graph(doc).unwrap().label is None,
        document_graph(doc).unwrap().attrs.len() == 0,
        document_graph(doc).unwrap().nodes.len() == g.nodes.len(),
        document_graph(doc).unwrap().edges.len() == g.edges.len(),
        forall|k: int|
            0 <= k < g.nodes.len() ==> shows_node(#[trigger] document_graph(doc).unwrap().nodes[k], g),
        forall|j: int, k: int|
            0 <= j < k < g.nodes.len() ==> (#[trigger] document_graph(doc).unwrap().nodes[j]).id != (
            #[trigger] document_graph(doc).unwrap().nodes[k]).id,
        forall|k: int|
            0 <= k < g.edges.len() ==> shows_edge(#[trigger] document_graph(doc).unwrap().edges[k], g),
        forall|j: int, k: int|
            0 <= j < k < g.edges.len() ==> (
                (#[trigger] document_graph(doc).unwrap().edges[j]).source,
                document_graph(doc).unwrap().edges[j].target,
            ) != (
                (#[trigger] document_graph(doc).unwrap().edges[k]).source,
                document_graph(doc).unwrap().edges[k].target,
            ),
{
    lemma_records(g);
    lemma_keys_differ();
    let n = g.nodes.len();
    let m = g.edges.len();
    assert(models(doc).len() == doc.len());
    assert(document_of(g).len() == 1);
    assert(models(doc)[0] == entry_model(doc[0]));
    assert(is_first(doc, "graph"@, 0));
    lemma_first_key(doc, "graph"@, 0);
    let inside = match doc[0].1 {
        GMLValue::GMLObject(obj) => obj.pairs,
        _ => arbitrary(),
    };
    assert(doc[0].1 is GMLObject);
    let list = inside@;
    lemma_entries_model(inside, inside@.len());
    assert(models(list) =~= records_of(g));
    let origin = Seq::new(list.len(), |j: int| j);
    assert(traced(list, origin, g)) by {
        assert forall|j: int| 0 <= j < list.len() implies 0 <= #[trigger] origin[j] < records_of(g).len()
            && entry_model(list[j]) == records_of(g)[origin[j]] by {
            assert(models(list)[j] == entry_model(list[j]));
        }
    }
    assert forall|name: Seq<char>| name != "node"@ && name != "edge"@ implies !has_key(list, name) by {
        if has_key(list, name) {
            lemma_has_key(list, name);
            let i = first_key(list, name);
            assert(models(list)[i] == entry_model(list[i]));
        }
    }
    assert(!has_key(list, "id"@));
    assert(!has_key(list, "directed"@));
    assert(!has_key(list, "label"@));
    let left = lemma_take_nodes(list, origin, g);
    let taken = nodes_of(list).unwrap().0;
    let rest = nodes_of(list).unwrap().1;
    lemma_take_edges(rest, left, g);
    lemma_nodes_count(list);
    let ids = Seq::new(taken.len(), |k: int| taken[k].id as int);
    assert forall|a: int, b: int| 0 <= a < ids.len() && 0 <= b < ids.len() && a != b implies ids[a] != ids[b] by {
        if a < b {
            assert(taken[a].id != taken[b].id);
        } else {
            assert(taken[b].id != taken[a].id);
        }
    }
    assert forall|k: int| 0 <= k < ids.len() implies 0 <= #[trigger] ids[k] < n by {
        assert(shows_node(taken[k], g));
    }
    lemma_distinct_below(ids, n);
    let shifted = Seq::new(left.len(), |j: int| left[j] - n);
    assert forall|a: int, b: int| 0 <= a < shifted.len() && 0 <= b < shifted.len() && a != b implies shifted[a]
        != shifted[b] by {
        assert(left[a] != left[b]);
    }
    assert forall|j: int| 0 <= j < shifted.len() implies 0 <= #[trigger] shifted[j] < m by {
        assert(left[j] >= n);
    }
    lemma_distinct_below(shifted, m);
    assert(taken.len() == n);
    assert(rest.len() == m);
}

/// What the entries of a list hold, entry by entry.
pub proof fn lemma_models_of(pairs: Vec<(String, GMLValue)>)
    ensures
        models(pairs@) == crate::gml_text::entries_of(pairs),
{
    lemma_entries_model(pairs, pairs@.len());
    assert(models(pairs@) =~= crate::gml_text::entries_of(pairs));
}

/// From the store to its text and back to a graph: whatever document the
/// text of a store reads as, the graph reader makes of it a graph that shows
/// the store, node for node and edge for edge.
pub proof fn lemma_written_graph(g: GraphView, pairs: Vec<(String, GMLValue)>)
    requires
        g.wf(),
        writable(g),
        read_document(encode_utf8(gml_text(g))) == Some(crate::gml_text::entries_of(pairs)),
    ensures
        document_graph(pairs@) is Ok,
        document_graph(pairs@).unwrap().nodes.len() == g.nodes.len(),
        document_graph(pairs@).unwrap().edges.len() == g.edges.len(),
        forall|k: int|
            0 <= k < g.nodes.len() ==> shows_node(#[trigger] document_graph(pairs@).unwrap().nodes[k], g),
        forall|k: int|
            0 <= k < g.edges.len() ==> shows_edge(#[trigger] document_graph(pairs@).unwrap().edges[k], g),
{
    lemma_read_back(g);
    lemma_models_of(pairs);
    lemma_graph_read_back(g, pairs@);
}

} // verus!
