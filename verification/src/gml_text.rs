//! Reading a GML document from its text.

use crate::gml::{GMLError, GMLFault, GMLObject, GMLValue};
use crate::ident::{is_digit, same_text};
use vstd::prelude::*;
use vstd::slice::slice_subrange;
use vstd::string::StringExecFns;
use vstd::string::StringSliceAdditionalSpecFns;
use vstd::utf8::{decode_utf8, is_char_boundary, valid_utf8};

verus! {

/// A value of a document as contracts see it.
pub enum ValueModel {
    Text(Seq<char>),
    Int(i64),
    Real(Seq<char>),
    List(Seq<(Seq<char>, ValueModel)>),
}

/// What a value holds.
pub open spec fn value_model(value: GMLValue) -> ValueModel
    decreases value, 0nat,
{
    match value {
        GMLValue::GMLString(text) => ValueModel::Text(text@),
        GMLValue::GMLInt(n) => ValueModel::Int(n),
        GMLValue::GMLFloat(text) => ValueModel::Real(text@),
        GMLValue::GMLObject(obj) => ValueModel::List(entries_model(obj.pairs, obj.pairs@.len())),
    }
}

/// What the first `n` entries of a list hold.
pub open spec fn entries_model(pairs: Vec<(String, GMLValue)>, n: nat) -> Seq<(Seq<char>, ValueModel)>
    decreases pairs, n,
{
    if n == 0 || n > pairs@.len() {
        Seq::empty()
    } else {
        proof {
            vstd::std_specs::vec::axiom_vec_index_decreases(pairs, n - 1);
        }
        entries_model(pairs, (n - 1) as nat).push((pairs@[n - 1].0@, value_model(pairs@[n - 1].1)))
    }
}

/// The kinds of bytes that the reader tells apart.
#[derive(Clone, Copy, Debug, PartialEq, Eq, Structural)]
pub enum ByteClass {
    /// Space, tab, line feed, carriage return.
    Blank,
    /// A letter, a digit or an underscore: what a key is made of.
    KeyPart,
    /// A digit, a sign, a point or an `e`: what a number is made of.
    NumberPart,
    /// Anything but the double quote: what a text is made of.
    TextPart,
    /// A decimal digit.
    Digit,
}

/// Whether a byte can begin a key: a letter or an underscore.
pub open spec fn is_key_start(b: u8) -> bool {
    (0x41 <= b <= 0x5a) || (0x61 <= b <= 0x7a) || b == 0x5f
}

/// Whether a byte is of a class.
pub open spec fn in_class(class: ByteClass, b: u8) -> bool {
    match class {
        ByteClass::Blank => b == 0x20 || b == 0x09 || b == 0x0a || b == 0x0d,
        ByteClass::KeyPart => is_key_start(b) || is_digit(b),
        ByteClass::NumberPart => is_digit(b) || b == 0x2b || b == 0x2d || b == 0x2e || b == 0x65 || b == 0x45,
        ByteClass::TextPart => b != 0x22,
        ByteClass::Digit => is_digit(b),
    }
}

/// Where the run of bytes of a class that starts at `from` ends.
pub open spec fn run_end(text: Seq<u8>, from: int, class: ByteClass) -> int
    decreases text.len() - from,
{
    if 0 <= from < text.len() && in_class(class, text[from]) {
        run_end(text, from + 1, class)
    } else {
        from
    }
}

/// A run ends at or behind its start and within the text; it holds bytes of
/// its class only and stops at the first other byte.
pub proof fn lemma_run_end(text: Seq<u8>, from: int, class: ByteClass)
    requires
        0 <= from <= text.len(),
    ensures
        from <= run_end(text, from, class) <= text.len(),
        forall|k: int| from <= k < run_end(text, from, class) ==> in_class(class, #[trigger] text[k]),
        run_end(text, from, class) < text.len() ==> !in_class(class, text[run_end(text, from, class)]),
    decreases text.len() - from,
{
    if from < text.len() && in_class(class, text[from]) {
        lemma_run_end(text, from + 1, class);
    }
}

/// Tells whether a byte is of a class.
fn byte_in(class: ByteClass, b: u8) -> (yes: bool)
    ensures
        yes == in_class(class, b),
{
    match class {
        ByteClass::Blank => b == 0x20 || b == 0x09 || b == 0x0a || b == 0x0d,
        ByteClass::KeyPart => (0x41 <= b && b <= 0x5a) || (0x61 <= b && b <= 0x7a) || b == 0x5f || (0x30 <= b
            && b <= 0x39),
        ByteClass::NumberPart => (0x30 <= b && b <= 0x39) || b == 0x2b || b == 0x2d || b == 0x2e || b == 0x65
            || b == 0x45,
        ByteClass::TextPart => b != 0x22,
        ByteClass::Digit => 0x30 <= b && b <= 0x39,
    }
}

/// Finds the end of the run of a class that starts at `from`.
fn scan(text: &[u8], from: usize, class: ByteClass) -> (end: usize)
    requires
        from <= text@.len(),
    ensures
        end == run_end(text@, from as int, class),
        from <= end <= text@.len(),
{
    let mut end = from;
    while end < text.len() && byte_in(class, text[end])
        invariant
            from <= end <= text@.len(),
            run_end(text@, end as int, class) == run_end(text@, from as int, class),
        decreases text@.len() - end,
    {
        end += 1;
    }
    end
}

/// In UTF-8 a character begins at every byte below `0x80`, and the next one
/// right behind it.
pub proof fn lemma_after_ascii(bytes: Seq<u8>, i: int)
    requires
        valid_utf8(bytes),
        0 <= i < bytes.len(),
        bytes[i] < 0x80,
    ensures
        is_char_boundary(bytes, i),
        is_char_boundary(bytes, i + 1),
{
    vstd::utf8::is_char_boundary_iff_not_is_continuation_byte(bytes, i);
    vstd::utf8::valid_utf8_split(bytes, i);
    let tail = bytes.subrange(i, bytes.len() as int);
    assert(tail[0] == bytes[i]);
    let rest = vstd::utf8::pop_first_scalar(tail);
    assert(rest =~= bytes.subrange(i + 1, bytes.len() as int));
    assert(valid_utf8(rest));
    if i + 1 < bytes.len() {
        assert(rest[0] == bytes[i + 1]);
        assert(vstd::utf8::valid_first_scalar(rest));
        vstd::utf8::is_char_boundary_iff_not_is_continuation_byte(bytes, i + 1);
    } else {
        vstd::utf8::is_char_boundary_start_end_of_seq(bytes);
    }
}

/// The part of a string between two offsets at which characters begin.
fn slice_text(text: &str, from: usize, to: usize) -> (part: &str)
    requires
        from <= to <= text.spec_bytes().len(),
        is_char_boundary(text.spec_bytes(), from as int),
        is_char_boundary(text.spec_bytes(), to as int),
    ensures
        part.spec_bytes() == text.spec_bytes().subrange(from as int, to as int),
        part@ == decode_utf8(text.spec_bytes().subrange(from as int, to as int)),
{
    let ghost bytes = text.spec_bytes();
    proof {
        vstd::utf8::encode_utf8_valid_utf8(text@);
    }
    let (head, _) = text.split_at(to);
    proof {
        vstd::utf8::encode_utf8_valid_utf8(head@);
        if from < to {
            if from > 0 {
                vstd::utf8::is_char_boundary_iff_not_is_continuation_byte(bytes, from as int);
                vstd::utf8::is_char_boundary_iff_not_is_continuation_byte(head.spec_bytes(), from as int);
            } else {
                vstd::utf8::is_char_boundary_start_end_of_seq(head.spec_bytes());
            }
        } else {
            vstd::utf8::is_char_boundary_start_end_of_seq(head.spec_bytes());
        }
    }
    let (_, part) = head.split_at(from);
    proof {
        assert(part.spec_bytes() =~= bytes.subrange(from as int, to as int));
        vstd::utf8::encode_utf8_decode_utf8(part@);
    }
    part
}

/// Where the sign that may stand at `from` ends.
pub open spec fn sign_end(token: Seq<u8>, from: int) -> int {
    if 0 <= from < token.len() && (token[from] == 0x2b || token[from] == 0x2d) {
        from + 1
    } else {
        from
    }
}

/// Whether a token is an integer: digits behind an optional sign.
pub open spec fn is_integer(token: Seq<u8>) -> bool {
    sign_end(token, 0) < token.len() && run_end(token, sign_end(token, 0), ByteClass::Digit) == token.len()
}

/// The number that a string of digits writes.
pub open spec fn digits_value(digits: Seq<u8>) -> nat
    decreases digits.len(),
{
    if digits.len() == 0 {
        0
    } else {
        digits_value(digits.drop_last()) * 10 + (digits.last() - 0x30) as nat
    }
}

/// The number that an integer token writes.
pub open spec fn integer_value(token: Seq<u8>) -> int {
    let size = digits_value(token.subrange(sign_end(token, 0), token.len() as int));
    if token[0] == 0x2d {
        -size
    } else {
        size as int
    }
}

/// Where the exponent that may stand at `from` ends: it is `e` or `E`, an
/// optional sign and at least one digit. `-1` for one without a digit.
pub open spec fn exponent_end(token: Seq<u8>, from: int) -> int {
    if 0 <= from < token.len() && (token[from] == 0x65 || token[from] == 0x45) {
        if run_end(token, sign_end(token, from + 1), ByteClass::Digit) > sign_end(token, from + 1) {
            run_end(token, sign_end(token, from + 1), ByteClass::Digit)
        } else {
            -1
        }
    } else {
        from
    }
}

/// Where the fraction that may stand at `from` ends: a point and digits.
pub open spec fn fraction_end(token: Seq<u8>, from: int) -> int {
    if 0 <= from < token.len() && token[from] == 0x2e {
        run_end(token, from + 1, ByteClass::Digit)
    } else {
        from
    }
}

/// Whether a token is a number: an optional sign, at least one digit, then
/// an optional fraction and an optional exponent, and nothing else.
pub open spec fn is_real(token: Seq<u8>) -> bool {
    let whole = run_end(token, sign_end(token, 0), ByteClass::Digit);
    whole > sign_end(token, 0) && exponent_end(token, fraction_end(token, whole)) == token.len()
}

/// The value that a number token writes: an integer where it is one that
/// fits 64 bits, else the number as it is written.
pub open spec fn number_of(token: Seq<u8>) -> Option<ValueModel> {
    if is_integer(token) && i64::MIN <= integer_value(token) <= i64::MAX {
        Some(ValueModel::Int(integer_value(token) as i64))
    } else if is_real(token) {
        Some(ValueModel::Real(decode_utf8(token)))
    } else {
        None
    }
}

/// More digits write no smaller number.
proof fn lemma_digits_grow(digits: Seq<u8>, upto: int)
    requires
        0 <= upto <= digits.len(),
    ensures
        digits_value(digits.subrange(0, upto)) <= digits_value(digits),
    decreases digits.len() - upto,
{
    if upto < digits.len() {
        lemma_digits_grow(digits, upto + 1);
        assert(digits.subrange(0, upto + 1).drop_last() == digits.subrange(0, upto));
    } else {
        assert(digits.subrange(0, upto) == digits);
    }
}

/// The number that the digits from `from` on write, unless it is beyond
/// what a 64-bit integer of either sign can be.
fn read_digits(token: &[u8], from: usize) -> (size: Option<u64>)
    requires
        from <= token@.len(),
        forall|k: int| from <= k < token@.len() ==> is_digit(#[trigger] token@[k]),
    ensures
        match size {
            Some(n) => n == digits_value(token@.subrange(from as int, token@.len() as int)) && n
                <= 0x8000_0000_0000_0000,
            None => digits_value(token@.subrange(from as int, token@.len() as int)) > 0x8000_0000_0000_0000,
        },
{
    let ghost digits = token@.subrange(from as int, token@.len() as int);
    let mut acc: u64 = 0;
    let mut i: usize = from;
    while i < token.len()
        invariant
            from <= i <= token@.len(),
            digits == token@.subrange(from as int, token@.len() as int),
            forall|k: int| from <= k < token@.len() ==> is_digit(#[trigger] token@[k]),
            acc == digits_value(digits.subrange(0, i - from)),
            acc <= 0x8000_0000_0000_0000,
        decreases token@.len() - i,
    {
        let d: u64 = (token[i] - 0x30) as u64;
        proof {
            assert(digits.subrange(0, i + 1 - from).drop_last() == digits.subrange(0, i - from));
            assert(digits.subrange(0, i + 1 - from).last() == token@[i as int]);
        }
        if acc > 922_337_203_685_477_580 || (acc == 922_337_203_685_477_580 && d > 8) {
            proof {
                lemma_digits_grow(digits, i + 1 - from);
            }
            return None;
        }
        acc = acc * 10 + d;
        i += 1;
    }
    assert(digits.subrange(0, digits.len() as int) == digits);
    Some(acc)
}

/// Finds the end of the sign that may stand at `from`.
fn skip_sign(token: &[u8], from: usize) -> (end: usize)
    requires
        from <= token@.len(),
    ensures
        end == sign_end(token@, from as int),
        from <= end <= token@.len(),
{
    if from < token.len() && (token[from] == 0x2b || token[from] == 0x2d) {
        from + 1
    } else {
        from
    }
}

/// Reads the number that stands between two offsets of the text.
fn read_number(text: &str, from: usize, to: usize) -> (value: Option<GMLValue>)
    requires
        from <= to <= text.spec_bytes().len(),
        forall|k: int| from <= k < to ==> in_class(ByteClass::NumberPart, #[trigger] text.spec_bytes()[k]),
    ensures
        match value {
            Some(v) => number_of(text.spec_bytes().subrange(from as int, to as int)) == Some(value_model(v)),
            None => number_of(text.spec_bytes().subrange(from as int, to as int)) is None,
        },
{
    let ghost bytes = text.spec_bytes();
    let token = slice_subrange(text.as_bytes(), from, to);
    let n = token.len();
    let start = skip_sign(token, 0);
    let whole = scan(token, start, ByteClass::Digit);
    proof {
        lemma_run_end(token@, start as int, ByteClass::Digit);
    }
    if whole == start {
        return None;
    }
    if whole == n {
        match read_digits(token, start) {
            Some(size) => {
                if token[0] == 0x2d {
                    let n: i64 = if size == 0x8000_0000_0000_0000 {
                        i64::MIN
                    } else {
                        -(size as i64)
                    };
                    return Some(GMLValue::GMLInt(n));
                } else if size <= 0x7fff_ffff_ffff_ffff {
                    return Some(GMLValue::GMLInt(size as i64));
                }
            },
            None => {},
        }
    }
    let fraction = if whole < n && token[whole] == 0x2e {
        scan(token, whole + 1, ByteClass::Digit)
    } else {
        whole
    };
    let end = if fraction < n && (token[fraction] == 0x65 || token[fraction] == 0x45) {
        let digits = skip_sign(token, fraction + 1);
        let end = scan(token, digits, ByteClass::Digit);
        if end > digits {
            end
        } else {
            return None;
        }
    } else {
        fraction
    };
    if end == n {
        proof {
            vstd::utf8::encode_utf8_valid_utf8(text@);
            assert(bytes[from as int] < 0x80);
            assert(bytes[to - 1] < 0x80);
            lemma_after_ascii(bytes, from as int);
            lemma_after_ascii(bytes, to - 1);
        }
        Some(GMLValue::GMLFloat(String::from_str(slice_text(text, from, to))))
    } else {
        None
    }
}

/// The value that stands at `at`, and where it ends. A text runs from a
/// double quote to the next one; a list from `[` over its entries to `]`;
/// anything else must be a number.
pub open spec fn read_value(text: Seq<u8>, at: int) -> Option<(ValueModel, int)>
    decreases text.len() - at, 0nat,
{
    if !(0 <= at < text.len()) {
        None
    } else if text[at] == 0x22 {
        let close = run_end(text, at + 1, ByteClass::TextPart);
        if close < text.len() {
            Some((ValueModel::Text(decode_utf8(text.subrange(at + 1, close))), close + 1))
        } else {
            None
        }
    } else if text[at] == 0x5b {
        match read_entries(text, at + 1) {
            Some((entries, end)) => if 0 <= end < text.len() && text[end] == 0x5d {
                Some((ValueModel::List(entries), end + 1))
            } else {
                None
            },
            None => None,
        }
    } else {
        let end = run_end(text, at, ByteClass::NumberPart);
        match number_of(text.subrange(at, end)) {
            Some(number) => Some((number, end)),
            None => None,
        }
    }
}

/// The entries that follow one another from `from` on, each a key and a
/// value, with blanks between them as may be; and where they end, which is
/// behind the blanks that follow the last one.
pub open spec fn read_entries(text: Seq<u8>, from: int) -> Option<(Seq<(Seq<char>, ValueModel)>, int)>
    decreases text.len() - from, 1nat,
{
    let key = run_end(text, from, ByteClass::Blank);
    if 0 <= from <= key < text.len() && is_key_start(text[key]) {
        let key_end = run_end(text, key, ByteClass::KeyPart);
        let at = run_end(text, key_end, ByteClass::Blank);
        if from < at <= text.len() {
            match read_value(text, at) {
                Some((value, end)) => if at < end <= text.len() {
                    match read_entries(text, end) {
                        Some((more, last)) => Some(
                            (seq![(decode_utf8(text.subrange(key, key_end)), value)] + more, last),
                        ),
                        None => None,
                    }
                } else {
                    None
                },
                None => None,
            }
        } else {
            None
        }
    } else {
        Some((Seq::empty(), key))
    }
}

/// The entries without a leading `Creator` line.
pub open spec fn without_creator(entries: Seq<(Seq<char>, ValueModel)>) -> Seq<(Seq<char>, ValueModel)> {
    if entries.len() > 0 && entries[0].0 == "Creator"@ && entries[0].1 is Text {
        entries.drop_first()
    } else {
        entries
    }
}

/// The document that a text writes: its entries from the first byte to the
/// last, the `Creator` line left out.
pub open spec fn read_document(text: Seq<u8>) -> Option<Seq<(Seq<char>, ValueModel)>> {
    match read_entries(text, 0) {
        Some((entries, end)) => if end == text.len() {
            Some(without_creator(entries))
        } else {
            None
        },
        None => None,
    }
}

/// Entries that are read end at or behind their start, within the text.
pub proof fn lemma_read_entries(text: Seq<u8>, from: int)
    requires
        0 <= from <= text.len(),
        read_entries(text, from) is Some,
    ensures
        from <= read_entries(text, from).unwrap().1 <= text.len(),
    decreases text.len() - from,
{
    lemma_run_end(text, from, ByteClass::Blank);
    let key = run_end(text, from, ByteClass::Blank);
    if key < text.len() && is_key_start(text[key]) {
        let key_end = run_end(text, key, ByteClass::KeyPart);
        let at = run_end(text, key_end, ByteClass::Blank);
        let end = read_value(text, at).unwrap().1;
        lemma_read_entries(text, end);
    }
}

/// A value that is read ends behind its start, within the text.
pub proof fn lemma_read_value(text: Seq<u8>, at: int)
    requires
        read_value(text, at) is Some,
    ensures
        0 <= at < read_value(text, at).unwrap().1 <= text.len(),
{
    if text[at] == 0x22 {
        lemma_run_end(text, at + 1, ByteClass::TextPart);
    } else if text[at] == 0x5b {
        lemma_read_entries(text, at + 1);
    } else {
        lemma_run_end(text, at, ByteClass::NumberPart);
        let end = run_end(text, at, ByteClass::NumberPart);
        let token = text.subrange(at, end);
        if end == at {
            assert(!is_integer(token));
            assert(!is_real(token));
        }
    }
}

/// The entries of a list, each by what it holds.
pub open spec fn entries_of(pairs: Vec<(String, GMLValue)>) -> Seq<(Seq<char>, ValueModel)> {
    entries_model(pairs, pairs@.len())
}

/// `entries_model` goes entry by entry.
pub proof fn lemma_entries_model(pairs: Vec<(String, GMLValue)>, n: nat)
    requires
        n <= pairs@.len(),
    ensures
        entries_model(pairs, n).len() == n,
        forall|i: int|
            0 <= i < n ==> #[trigger] entries_model(pairs, n)[i] == (pairs@[i].0@, value_model(pairs@[i].1)),
    decreases n,
{
    if n > 0 {
        lemma_entries_model(pairs, (n - 1) as nat);
    }
}

/// What was read so far, before what is still to be read.
pub open spec fn entries_after(
    done: Seq<(Seq<char>, ValueModel)>,
    coming: Option<(Seq<(Seq<char>, ValueModel)>, int)>,
) -> Option<(Seq<(Seq<char>, ValueModel)>, int)> {
    match coming {
        Some((more, end)) => Some((done + more, end)),
        None => None,
    }
}

/// Pushing an entry onto a list pushes what it holds.
proof fn lemma_entries_push(before: Vec<(String, GMLValue)>, now: Vec<(String, GMLValue)>, entry: (String, GMLValue))
    requires
        now@ == before@.push(entry),
    ensures
        entries_of(now) == entries_of(before).push((entry.0@, value_model(entry.1))),
{
    lemma_entries_model(before, before@.len());
    lemma_entries_model(now, now@.len());
    assert(entries_of(now) =~= entries_of(before).push((entry.0@, value_model(entry.1))));
}

/// Reads the value that stands at `at`.
fn read_value_at(text: &str, at: usize) -> (read: Option<(GMLValue, usize)>)
    requires
        at <= text.spec_bytes().len(),
    ensures
        match read {
            Some((value, end)) => read_value(text.spec_bytes(), at as int) == Some((value_model(value), end as int))
                && at < end <= text.spec_bytes().len(),
            None => read_value(text.spec_bytes(), at as int) is None,
        },
    decreases text.spec_bytes().len() - at, 0nat,
{
    let bytes = text.as_bytes();
    let ghost all = text.spec_bytes();
    proof {
        vstd::utf8::encode_utf8_valid_utf8(text@);
    }
    if at >= bytes.len() {
        return None;
    }
    let b = bytes[at];
    if b == 0x22 {
        let close = scan(bytes, at + 1, ByteClass::TextPart);
        if close < bytes.len() {
            proof {
                lemma_run_end(all, at + 1, ByteClass::TextPart);
                lemma_after_ascii(all, at as int);
                lemma_after_ascii(all, close as int);
            }
            let content = String::from_str(slice_text(text, at + 1, close));
            Some((GMLValue::GMLString(content), close + 1))
        } else {
            None
        }
    } else if b == 0x5b {
        match read_entries_at(text, at + 1) {
            Some((pairs, end)) => {
                if end < bytes.len() && bytes[end] == 0x5d {
                    Some((GMLValue::GMLObject(Box::new(GMLObject { pairs })), end + 1))
                } else {
                    None
                }
            },
            None => None,
        }
    } else {
        let end = scan(bytes, at, ByteClass::NumberPart);
        proof {
            lemma_run_end(all, at as int, ByteClass::NumberPart);
        }
        match read_number(text, at, end) {
            Some(value) => {
                proof {
                    lemma_read_value(all, at as int);
                }
                Some((value, end))
            },
            None => None,
        }
    }
}

/// Reads the entries that follow one another from `from` on.
fn read_entries_at(text: &str, from: usize) -> (read: Option<(Vec<(String, GMLValue)>, usize)>)
    requires
        from <= text.spec_bytes().len(),
    ensures
        match read {
            Some((pairs, end)) => read_entries(text.spec_bytes(), from as int) == Some(
                (entries_of(pairs), end as int),
            ) && from <= end <= text.spec_bytes().len(),
            None => read_entries(text.spec_bytes(), from as int) is None,
        },
    decreases text.spec_bytes().len() - from, 1nat,
{
    let bytes = text.as_bytes();
    let ghost all = text.spec_bytes();
    let mut pairs: Vec<(String, GMLValue)> = Vec::new();
    let mut pos = from;
    proof {
        vstd::utf8::encode_utf8_valid_utf8(text@);
        match read_entries(all, from as int) {
            Some((more, end)) => {
                assert(entries_of(pairs) + more =~= more);
            },
            None => {},
        }
    }
    loop
        invariant
            bytes@ == all,
            all == text.spec_bytes(),
            valid_utf8(all),
            from <= pos <= all.len(),
            entries_after(entries_of(pairs), read_entries(all, pos as int)) == read_entries(all, from as int),
        decreases all.len() - pos,
    {
        let key = scan(bytes, pos, ByteClass::Blank);
        if key < bytes.len() && ((0x41 <= bytes[key] && bytes[key] <= 0x5a) || (0x61 <= bytes[key] && bytes[key]
            <= 0x7a) || bytes[key] == 0x5f) {
            let key_end = scan(bytes, key, ByteClass::KeyPart);
            let at = scan(bytes, key_end, ByteClass::Blank);
            proof {
                lemma_run_end(all, key as int, ByteClass::KeyPart);
                assert(in_class(ByteClass::KeyPart, all[key as int]));
            }
            match read_value_at(text, at) {
                None => {
                    return None;
                },
                Some((value, end)) => {
                    proof {
                        lemma_after_ascii(all, key as int);
                        assert(in_class(ByteClass::KeyPart, all[key_end - 1]));
                        lemma_after_ascii(all, key_end - 1);
                    }
                    let name = String::from_str(slice_text(text, key, key_end));
                    let ghost before = pairs;
                    let ghost done = entries_of(pairs);
                    let ghost entry = (name, value);
                    pairs.push((name, value));
                    proof {
                        lemma_entries_push(before, pairs, entry);
                        match read_entries(all, end as int) {
                            Some((more, last)) => {
                                assert(entries_of(pairs) + more =~= done + (seq![(entry.0@, value_model(entry.1))]
                                    + more));
                            },
                            None => {},
                        }
                    }
                    pos = end;
                },
            }
        } else {
            proof {
                assert(entries_of(pairs) + Seq::<(Seq<char>, ValueModel)>::empty() =~= entries_of(pairs));
            }
            return Some((pairs, key));
        }
    }
}

impl GMLObject {
    /// Reads a document from its text. The text holds entries and blanks and
    /// nothing else; a `Creator` line at its head is passed over.
    pub fn from_text(text: &str) -> (read: Result<GMLObject, GMLError>)
        ensures
            match read {
                Ok(obj) => read_document(text.spec_bytes()) == Some(entries_of(obj.pairs)),
                Err(e) => e == GMLError(GMLFault::Syntax) && read_document(text.spec_bytes()) is None,
            },
    {
        match read_entries_at(text, 0) {
            Some((pairs, end)) => {
                if end != text.as_bytes().len() {
                    return Err(GMLError(GMLFault::Syntax));
                }
                let mut pairs = pairs;
                let ghost read = pairs;
                proof {
                    lemma_entries_model(read, read@.len());
                }
                let creator = pairs.len() > 0 && same_text(pairs[0].0.as_str(), "Creator") && match &pairs[0].1 {
                    GMLValue::GMLString(_) => true,
                    _ => false,
                };
                if creator {
                    pairs.remove(0);
                    proof {
                        lemma_entries_model(pairs, pairs@.len());
                        assert(entries_of(pairs) =~= entries_of(read).drop_first());
                    }
                }
                Ok(GMLObject { pairs })
            },
            None => Err(GMLError(GMLFault::Syntax)),
        }
    }
}

impl std::str::FromStr for GMLObject {
    type Err = GMLError;

    fn from_str(text: &str) -> (read: Result<GMLObject, GMLError>)
        ensures
            match read {
                Ok(obj) => read_document(text.spec_bytes()) == Some(entries_of(obj.pairs)),
                Err(e) => e == GMLError(GMLFault::Syntax) && read_document(text.spec_bytes()) is None,
            },
    {
        GMLObject::from_text(text)
    }
}

} // verus!
