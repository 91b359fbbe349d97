//! The quoting of a path for display.
//!
//! A path is shown between double quotes. What stands between them is the
//! path itself, with an escape `\xNN` (two upper-case hexadecimal digits) in
//! place of every byte that would not print or would end the quotes: control
//! codes, the double quote and the backslash. Where the result is not text,
//! because the path is not, every byte outside ASCII is escaped as well.
//!
//! The quoting can be undone, and what it yields holds no double quote. Both
//! are proved here; on them rests that different entries are shown
//! differently.

use vstd::prelude::*;
use vstd::utf8::{decode_utf8, encode_utf8, valid_utf8};
use crate::text::{ascii_string, ascii_text, is_ascii_bytes, utf8_text};

verus! {

/// Whether `byte` is shown as it is. With `keep_high`, bytes outside ASCII
/// are; without, they are escaped.
pub open spec fn is_plain(byte: u8, keep_high: bool) -> bool {
    ||| 0x20 <= byte < 0x7f && byte != 0x22 && byte != 0x5c
    ||| keep_high && byte >= 0x80
}

/// The hexadecimal digit for `n`, where `n` is less than 16.
pub open spec fn hex_digit(n: u8) -> u8 {
    if n < 10 {
        (0x30 + n) as u8
    } else {
        (0x37 + n) as u8
    }
}

/// The number that the hexadecimal digit `digit` stands for.
pub open spec fn hex_value(digit: u8) -> int {
    if digit <= 0x39 {
        digit - 0x30
    } else {
        digit - 0x37
    }
}

/// What is shown for one byte: the byte, or its escape.
pub open spec fn escaped_byte(byte: u8, keep_high: bool) -> Seq<u8> {
    if is_plain(byte, keep_high) {
        seq![byte]
    } else {
        seq![0x5cu8, 0x78u8, hex_digit(byte / 16), hex_digit(byte % 16)]
    }
}

/// What is shown for `bytes`: each byte or its escape, in order.
pub open spec fn escaped(bytes: Seq<u8>, keep_high: bool) -> Seq<u8>
    decreases bytes.len(),
{
    if bytes.len() == 0 {
        Seq::empty()
    } else {
        escaped_byte(bytes[0], keep_high) + escaped(bytes.drop_first(), keep_high)
    }
}

/// The bytes that `shown` is the escaped form of.
pub open spec fn unescaped(shown: Seq<u8>) -> Seq<u8>
    decreases shown.len(),
{
    if shown.len() == 0 {
        Seq::empty()
    } else if shown[0] == 0x5c && shown.len() >= 4 {
        seq![(hex_value(shown[2]) * 16 + hex_value(shown[3])) as u8] + unescaped(shown.skip(4))
    } else {
        seq![shown[0]] + unescaped(shown.skip(1))
    }
}

/// The escaped form of a path as bytes: with the bytes outside ASCII kept
/// where that is valid UTF-8, with all of them escaped where it is not.
pub open spec fn escaped_path(path: Seq<u8>) -> Seq<u8> {
    if valid_utf8(escaped(path, true)) {
        escaped(path, true)
    } else {
        escaped(path, false)
    }
}

/// The escaped form of a path as text.
pub open spec fn escaped_text(path: Seq<u8>) -> Seq<char> {
    if valid_utf8(escaped(path, true)) {
        decode_utf8(escaped(path, true))
    } else {
        ascii_text(escaped(path, false))
    }
}

/// Escaping goes byte by byte: a byte more at the end adds its escaped form
/// at the end.
pub proof fn lemma_escaped_push(bytes: Seq<u8>, byte: u8, keep_high: bool)
    ensures
        escaped(bytes.push(byte), keep_high) == escaped(bytes, keep_high) + escaped_byte(
            byte,
            keep_high,
        ),
    decreases bytes.len(),
{
    let longer = bytes.push(byte);
    if bytes.len() == 0 {
        assert(longer.drop_first() =~= Seq::<u8>::empty());
        assert(longer[0] == byte);
        assert(escaped(longer.drop_first(), keep_high) =~= Seq::<u8>::empty());
        assert(escaped(longer, keep_high) =~= escaped_byte(byte, keep_high));
        assert(escaped(bytes, keep_high) + escaped_byte(byte, keep_high) =~= escaped_byte(
            byte,
            keep_high,
        ));
    } else {
        assert(longer.drop_first() =~= bytes.drop_first().push(byte));
        assert(longer[0] == bytes[0]);
        lemma_escaped_push(bytes.drop_first(), byte, keep_high);
        assert(escaped(longer, keep_high) =~= escaped(bytes, keep_high) + escaped_byte(
            byte,
            keep_high,
        ));
    }
}

/// Escaping can be undone: the escaped form tells the bytes.
pub proof fn lemma_unescape(bytes: Seq<u8>, keep_high: bool)
    ensures
        unescaped(escaped(bytes, keep_high)) == bytes,
    decreases bytes.len(),
{
    if bytes.len() > 0 {
        let byte = bytes[0];
        let first = escaped_byte(byte, keep_high);
        let rest = escaped(bytes.drop_first(), keep_high);
        let shown = first + rest;
        lemma_unescape(bytes.drop_first(), keep_high);
        if is_plain(byte, keep_high) {
            assert(shown[0] == byte);
            assert(shown.skip(1) =~= rest);
        } else {
            assert(shown[0] == 0x5c && shown[2] == first[2] && shown[3] == first[3]);
            assert(shown.skip(4) =~= rest);
            assert(hex_value(hex_digit(byte / 16)) * 16 + hex_value(hex_digit(byte % 16)) == byte);
        }
        assert(seq![byte] + bytes.drop_first() =~= bytes);
    }
}

/// The escaped form holds no double quote, and with all bytes outside ASCII
/// escaped it is ASCII.
pub proof fn lemma_escaped_bytes(bytes: Seq<u8>, keep_high: bool)
    ensures
        forall|i: int|
            0 <= i < escaped(bytes, keep_high).len() ==> #[trigger] escaped(bytes, keep_high)[i]
                != 0x22,
        !keep_high ==> is_ascii_bytes(escaped(bytes, keep_high)),
    decreases bytes.len(),
{
    if bytes.len() > 0 {
        let first = escaped_byte(bytes[0], keep_high);
        let rest = escaped(bytes.drop_first(), keep_high);
        lemma_escaped_bytes(bytes.drop_first(), keep_high);
        assert forall|i: int| 0 <= i < (first + rest).len() implies #[trigger] (first + rest)[i]
            != 0x22 && (!keep_high ==> (first + rest)[i] < 128) by {
            if i >= first.len() {
                assert((first + rest)[i] == rest[i - first.len()]);
            }
        }
    }
}

/// The escaped text of a path is the text of its escaped bytes.
pub proof fn lemma_escaped_text(path: Seq<u8>)
    ensures
        encode_utf8(escaped_text(path)) == escaped_path(path),
        forall|i: int| 0 <= i < escaped_path(path).len() ==> #[trigger] escaped_path(path)[i] != 0x22,
        unescaped(escaped_path(path)) == path,
{
    lemma_escaped_bytes(path, true);
    lemma_escaped_bytes(path, false);
    lemma_unescape(path, true);
    lemma_unescape(path, false);
    if valid_utf8(escaped(path, true)) {
        vstd::utf8::decode_utf8_encode_utf8(escaped(path, true));
    } else {
        let shown = escaped(path, false);
        crate::text::lemma_ascii_decodes(shown);
        vstd::utf8::decode_utf8_encode_utf8(shown);
    }
}

/// A path of printable ASCII without double quote and backslash is shown
/// as it is.
pub proof fn lemma_plain_path(path: Seq<u8>)
    requires
        forall|i: int| 0 <= i < path.len() ==> is_plain(#[trigger] path[i], false),
    ensures
        escaped_path(path) == path,
        escaped_text(path) == ascii_text(path),
{
    lemma_plain_escaped(path);
    assert(is_ascii_bytes(path)) by {
        assert forall|i: int| 0 <= i < path.len() implies #[trigger] path[i] < 128 by {
            assert(is_plain(path[i], false));
        }
    }
    crate::text::lemma_ascii_decodes(path);
}

/// Bytes that are all shown as they are stay as they are.
pub proof fn lemma_plain_escaped(bytes: Seq<u8>)
    requires
        forall|i: int| 0 <= i < bytes.len() ==> is_plain(#[trigger] bytes[i], false),
    ensures
        escaped(bytes, true) == bytes,
        escaped(bytes, false) == bytes,
{
    assert forall|i: int| 0 <= i < bytes.len() implies is_plain(#[trigger] bytes[i], true) by {
        assert(is_plain(bytes[i], false));
    }
    lemma_kept(bytes, true);
    lemma_kept(bytes, false);
}

/// Bytes that are all kept stay as they are.
pub proof fn lemma_kept(bytes: Seq<u8>, keep_high: bool)
    requires
        forall|i: int| 0 <= i < bytes.len() ==> is_plain(#[trigger] bytes[i], keep_high),
    ensures
        escaped(bytes, keep_high) == bytes,
    decreases bytes.len(),
{
    if bytes.len() > 0 {
        assert(is_plain(bytes[0], keep_high));
        assert forall|i: int| 0 <= i < bytes.drop_first().len() implies is_plain(
            #[trigger] bytes.drop_first()[i],
            keep_high,
        ) by {
            assert(is_plain(bytes[i + 1], keep_high));
        }
        lemma_kept(bytes.drop_first(), keep_high);
        assert(seq![bytes[0]] + bytes.drop_first() =~= bytes);
    } else {
        assert(escaped(bytes, keep_high) =~= bytes);
    }
}

/// Escaping goes piece by piece.
pub proof fn lemma_escaped_concat(front: Seq<u8>, back: Seq<u8>, keep_high: bool)
    ensures
        escaped(front + back, keep_high) == escaped(front, keep_high) + escaped(back, keep_high),
    decreases front.len(),
{
    if front.len() == 0 {
        assert(front + back =~= back);
        assert(escaped(front, keep_high) + escaped(back, keep_high) =~= escaped(back, keep_high));
    } else {
        assert((front + back)[0] == front[0]);
        assert((front + back).drop_first() =~= front.drop_first() + back);
        lemma_escaped_concat(front.drop_first(), back, keep_high);
        assert(escaped(front + back, keep_high) =~= escaped(front, keep_high) + escaped(
            back,
            keep_high,
        ));
    }
}

/// Text stays text: the escaped form of valid UTF-8, with the bytes
/// outside ASCII kept, is valid UTF-8.
pub proof fn lemma_text_stays_text(path: Seq<u8>)
    requires
        valid_utf8(path),
    ensures
        valid_utf8(escaped(path, true)),
    decreases path.len(),
{
    if path.len() > 0 {
        let len = vstd::utf8::length_of_first_scalar(path);
        let head = path.subrange(0, len);
        let tail = vstd::utf8::pop_first_scalar(path);
        assert(vstd::utf8::valid_first_scalar(path));
        assert(1 <= len <= path.len());
        assert(path =~= head + tail);
        lemma_text_stays_text(tail);
        lemma_escaped_concat(head, tail, true);
        assert(valid_utf8(Seq::<u8>::empty()));
        if len == 1 {
            let shown = escaped(head, true);
            assert(head.len() == 1);
            assert(head.drop_first() =~= Seq::<u8>::empty());
            assert(escaped(head.drop_first(), true) =~= Seq::<u8>::empty());
            assert(shown == escaped_byte(head[0], true) + escaped(head.drop_first(), true));
            assert(shown =~= escaped_byte(head[0], true));
            assert(is_ascii_bytes(shown)) by {
                assert forall|i: int| 0 <= i < shown.len() implies #[trigger] shown[i] < 128 by {
                    assert(head[0] == path[0]);
                }
            }
            crate::text::lemma_ascii_decodes(shown);
        } else {
            assert forall|i: int| 0 <= i < head.len() implies is_plain(#[trigger] head[i], true) by {
                assert(head[i] == path[i]);
            }
            lemma_kept(head, true);
            assert(vstd::utf8::valid_first_scalar(head)) by {
                assert(head[0] == path[0]);
                assert(head[1] == path[1]);
                if len >= 3 {
                    assert(head[2] == path[2]);
                }
                if len >= 4 {
                    assert(head[3] == path[3]);
                }
            }
            assert(vstd::utf8::pop_first_scalar(head) =~= Seq::<u8>::empty());
            assert(valid_utf8(head));
        }
        vstd::utf8::valid_utf8_concat(escaped(head, true), escaped(tail, true));
    }
}

/// A path that is text is shown as text: its characters stay, but for
/// those that are escaped.
pub proof fn lemma_text_path(path: Seq<u8>)
    requires
        valid_utf8(path),
    ensures
        escaped_path(path) == escaped(path, true),
        escaped_text(path) == decode_utf8(escaped(path, true)),
{
    lemma_text_stays_text(path);
}

fn hex_digit_of(n: u8) -> (digit: u8)
    requires
        n < 16,
    ensures
        digit == hex_digit(n),
{
    if n < 10 {
        0x30 + n
    } else {
        0x37 + n
    }
}

fn escape(bytes: &[u8], keep_high: bool) -> (shown: Vec<u8>)
    ensures
        shown@ == escaped(bytes@, keep_high),
{
    let mut shown: Vec<u8> = Vec::new();
    let mut i: usize = 0;
    assert(bytes@.take(0) =~= Seq::<u8>::empty());
    while i < bytes.len()
        invariant
            i <= bytes@.len(),
            shown@ == escaped(bytes@.take(i as int), keep_high),
        decreases bytes@.len() - i,
    {
        let byte = bytes[i];
        let ghost before = shown@;
        proof {
            assert(bytes@.take(i + 1) =~= bytes@.take(i as int).push(byte));
            lemma_escaped_push(bytes@.take(i as int), byte, keep_high);
        }
        if (0x20 <= byte && byte < 0x7f && byte != 0x22 && byte != 0x5c) || (keep_high && byte
            >= 0x80) {
            shown.push(byte);
            assert(shown@ =~= before + escaped_byte(byte, keep_high));
        } else {
            shown.push(0x5c);
            shown.push(0x78);
            shown.push(hex_digit_of(byte / 16));
            shown.push(hex_digit_of(byte % 16));
            assert(shown@ =~= before + escaped_byte(byte, keep_high));
        }
        i += 1;
    }
    assert(bytes@.take(bytes@.len() as int) =~= bytes@);
    shown
}

/// The escaped form of `path` as text: see [`escaped_text`].
pub fn escape_path(path: &[u8]) -> (shown: String)
    ensures
        shown@ == escaped_text(path@),
{
    let kept = escape(path, true);
    match utf8_text(kept.as_slice()) {
        Some(text) => text.to_owned(),
        None => {
            let plain = escape(path, false);
            proof {
                lemma_escaped_bytes(path@, false);
            }
            ascii_string(plain.as_slice())
        },
    }
}

} // verus!
