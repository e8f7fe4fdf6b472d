//! Checks and keys of the collaborative editing model: client IDs, the
//! entry count that opens an encoded state vector, XML-safe text, cell
//! locator keys, lock targets and gestures.

use vstd::prelude::*;

use crate::edit_model::{EditError, ParseLimits};
use crate::seqs::{first_index, lemma_find_first_index, lemma_find_first_skip};
use crate::sheet::{CellLocator, CellRow, MutationGesture};
use crate::text::{append, decimal, decimal_string, owned, str_eq};

verus! {

/// The largest client ID a session accepts: one below the bootstrap ID `2^53 - 1`,
/// so that IDs stay exact in JavaScript numbers.
pub const MAX_SAFE_CLIENT_ID: u64 = 9007199254740990;

/// The largest update a session decodes.
pub const MAX_UPDATE_BYTES: usize = 67108864;

/// The most entries an encoded state vector may announce.
pub const MAX_STATE_VECTOR_ENTRIES: u32 = 65536;

/// The largest encoded state vector a session decodes.
pub const MAX_STATE_VECTOR_BYTES: usize = 1048576;

/// A client ID is usable when it is nonzero and at most `MAX_SAFE_CLIENT_ID`.
pub open spec fn client_id_valid(client_id: u64) -> bool {
    0 < client_id <= MAX_SAFE_CLIENT_ID
}

/// Refuses client IDs that are zero or beyond `MAX_SAFE_CLIENT_ID`.
pub fn validate_client_id(client_id: u64) -> (res: Result<(), EditError>)
    ensures
        res is Ok <==> client_id_valid(client_id),
        res matches Err(e) ==> e == EditError::InvalidClientId(client_id),
{
    if client_id == 0 || client_id > MAX_SAFE_CLIENT_ID {
        Err(EditError::InvalidClientId(client_id))
    } else {
        Ok(())
    }
}

/// A byte that ends a LEB128 number (its high bit is clear).
pub open spec fn ends_leb128() -> spec_fn(u8) -> bool {
    |b: u8| b < 128
}

/// The value of little-endian base-128 digits: the low seven bits of each byte.
pub open spec fn leb128_value(s: Seq<u8>) -> nat
    decreases s.len(),
{
    if s.len() == 0 {
        0
    } else {
        (s[0] % 128) as nat + 128 * leb128_value(s.drop_first())
    }
}

/// The index of the byte that ends the leading entry count.
pub open spec fn count_end(bytes: Seq<u8>) -> int {
    first_index(bytes, ends_leb128())
}

/// The leading entry count is well formed: it ends within the first five
/// bytes, inside the input, and a fifth byte carries at most four bits.
pub open spec fn count_well_formed(bytes: Seq<u8>) -> bool {
    let t = count_end(bytes);
    t < 5 && t < bytes.len() && (t == 4 ==> bytes[4] <= 15)
}

/// The entry count a state vector announces.
pub open spec fn announced_count(bytes: Seq<u8>) -> nat {
    leb128_value(bytes.take(count_end(bytes) + 1))
}

/// The message for a count beyond the entry limit.
pub open spec fn too_many_entries_message(count: nat) -> Seq<char> {
    "state vector contains "@ + decimal(count) + " entries, exceeds the 65536-entry limit"@
}

/// The outcome of checking the entry count that opens an encoded state
/// vector before it is decoded.
pub open spec fn spec_entry_count_check(bytes: Seq<u8>) -> Result<(), Seq<char>> {
    if bytes.len() == 0 {
        Err("state vector is empty"@)
    } else if !count_well_formed(bytes) {
        Err("invalid state vector entry count"@)
    } else if announced_count(bytes) > MAX_STATE_VECTOR_ENTRIES {
        Err(too_many_entries_message(announced_count(bytes)))
    } else if announced_count(bytes) > (bytes.len() - (count_end(bytes) + 1)) / 2 {
        Err("state vector entry count exceeds its payload"@)
    } else {
        Ok(())
    }
}

proof fn lemma_leb128_push(s: Seq<u8>, b: u8, scale: nat)
    requires
        scale == pow128(s.len()),
    ensures
        leb128_value(s.push(b)) == leb128_value(s) + (b % 128) as nat * scale,
    decreases s.len(),
{
    if s.len() == 0 {
        assert(s.push(b).drop_first() =~= Seq::<u8>::empty());
        assert(leb128_value(Seq::<u8>::empty()) == 0);
    } else {
        let t = s.drop_first();
        assert(s.push(b).drop_first() =~= t.push(b));
        lemma_leb128_push(t, b, pow128(t.len()));
        assert(pow128(s.len()) == 128 * pow128(t.len()));
        assert(128 * ((b % 128) as nat * pow128(t.len())) == (b % 128) as nat * (128 * pow128(
            t.len(),
        ))) by (nonlinear_arith);
    }
}

/// `128` to the power `n`.
pub open spec fn pow128(n: nat) -> nat
    decreases n,
{
    if n == 0 {
        1
    } else {
        128 * pow128((n - 1) as nat)
    }
}

/// Checks the entry count that opens an encoded state vector, refusing an
/// empty or malformed count, a count beyond the entry limit, and a count
/// that the remaining bytes cannot hold at two bytes an entry.
pub fn validate_state_vector_entry_count(bytes: &[u8]) -> (res: Result<(), String>)
    ensures
        match spec_entry_count_check(bytes@) {
            Ok(()) => res is Ok,
            Err(m) => res matches Err(e) && e@ == m,
        },
{
    if bytes.len() == 0 {
        return Err(owned("state vector is empty"));
    }
    let ghost p = ends_leb128();
    let mut value: u64 = 0;
    let mut scale: u64 = 1;
    let mut used: usize = 0;
    // Reads the count's bytes until one has its high bit clear.
    loop
        invariant_except_break
            used <= 4,
            used < bytes@.len(),
            forall|j: int| 0 <= j < used ==> !p(#[trigger] bytes@[j]),
            scale == pow128(used as nat),
            scale <= 268435456,
            value == leb128_value(bytes@.take(used as int)),
            value < scale,
        invariant
            bytes@.len() > 0,
            p == ends_leb128(),
        ensures
            1 <= used <= 5,
            count_end(bytes@) == used - 1,
            count_well_formed(bytes@),
            value == announced_count(bytes@),
            value <= 4294967295,
        decreases 5 - used,
    {
        let byte = bytes[used];
        if used == 4 && byte > 15 {
            proof {
                lemma_find_first_skip(bytes@, p, used as int);
                if byte < 128 {
                    assert(bytes@.skip(used as int)[0] == byte);
                }
                lemma_find_first_index(bytes@.skip(used as int), p);
            }
            return Err(owned("invalid state vector entry count"));
        }
        proof {
            reveal_with_fuel(pow128, 6);
            lemma_leb128_push(bytes@.take(used as int), byte, scale as nat);
            assert(bytes@.take(used + 1) =~= bytes@.take(used as int).push(byte));
            assert((byte % 128) as nat * scale <= 127 * scale) by (nonlinear_arith)
                requires
                    byte % 128 <= 127,
            ;
            if used == 4 {
                assert((byte % 128) as nat * scale <= 15 * scale) by (nonlinear_arith)
                    requires
                        byte % 128 <= 15,
                ;
            }
            assert(pow128(used as nat + 1) == 128 * scale);
        }
        value = value + (byte % 128) as u64 * scale;
        scale = scale * 128;
        used = used + 1;
        if byte < 128 {
            proof {
                lemma_find_first_skip(bytes@, p, (used - 1) as int);
                assert(bytes@.skip(used - 1)[0] == byte);
                assert(count_end(bytes@) == used - 1);
                assert(bytes@.take(used as int) == bytes@.take(count_end(bytes@) + 1));
            }
            break;
        }
        if used == 5 || used >= bytes.len() {
            proof {
                lemma_find_first_skip(bytes@, p, used as int);
                lemma_find_first_index(bytes@.skip(used as int), p);
            }
            return Err(owned("invalid state vector entry count"));
        }
    }
    if value > 65536 {
        let mut message = owned("state vector contains ");
        let digits = decimal_string(value as u32);
        append(&mut message, digits.as_str());
        append(&mut message, " entries, exceeds the 65536-entry limit");
        return Err(message);
    }
    if value > ((bytes.len() - used) / 2) as u64 {
        return Err(owned("state vector entry count exceeds its payload"));
    }
    Ok(())
}

/// A character that XML 1.0 allows in text and attribute values.
pub open spec fn xml_char(c: char) -> bool {
    c == '\t' || c == '\n' || c == '\r' || ('\u{20}' <= c && c <= '\u{d7ff}') || ('\u{e000}' <= c
        && c <= '\u{fffd}') || ('\u{10000}' <= c && c <= '\u{10ffff}')
}

/// Every character of the text is allowed by XML 1.0.
pub open spec fn all_xml_chars(s: Seq<char>) -> bool {
    forall|i: int| 0 <= i < s.len() ==> #[trigger] xml_char(s[i])
}

fn is_xml_char(c: char) -> (res: bool)
    ensures
        res == xml_char(c),
{
    c == '\t' || c == '\n' || c == '\r' || ('\u{20}' <= c && c <= '\u{d7ff}') || ('\u{e000}' <= c
        && c <= '\u{fffd}') || ('\u{10000}' <= c && c <= '\u{10ffff}')
}

/// Whether every character of `text` is allowed by XML 1.0.
pub fn xml_chars_only(text: &str) -> (res: bool)
    ensures
        res == all_xml_chars(text@),
{
    let n = text.unicode_len();
    let mut i: usize = 0;
    while i < n
        invariant
            n == text@.len(),
            i <= n,
            forall|j: int| 0 <= j < i ==> #[trigger] xml_char(text@[j]),
        decreases n - i,
    {
        if !is_xml_char(text.get_char(i)) {
            return false;
        }
        i = i + 1;
    }
    true
}

/// Refuses shape text that a save could not write back: text longer than the
/// XML text limit (in UTF-8 bytes), or with a character XML 1.0 forbids.
pub fn validate_story_text(text: &str, limits: &ParseLimits) -> (res: Result<(), EditError>)
    ensures
        text.len() > limits.max_xml_text_bytes ==> (res matches Err(
            EditError::InvalidState(m),
        ) && m@ == "shape text exceeds maximum length"@),
        text.len() <= limits.max_xml_text_bytes && !all_xml_chars(text@) ==> (
        res matches Err(EditError::InvalidState(m)) && m@
            == "shape text contains a character forbidden by XML 1.0"@),
        text.len() <= limits.max_xml_text_bytes && all_xml_chars(text@) ==> res is Ok,
{
    if text.len() > limits.max_xml_text_bytes {
        return Err(EditError::InvalidState(owned("shape text exceeds maximum length")));
    }
    if !xml_chars_only(text) {
        return Err(
            EditError::InvalidState(owned("shape text contains a character forbidden by XML 1.0")),
        );
    }
    Ok(())
}

/// The key a section contributes to a cell key: its name, followed by
/// `[<index>]` when the locator names a section index.
pub open spec fn spec_section_key(name: Seq<char>, index: Option<u32>) -> Seq<char> {
    match index {
        None => name,
        Some(i) => name + "["@ + decimal(i as nat) + "]"@,
    }
}

/// The unit separator that joins the parts of a cell key.
pub open spec fn unit_separator() -> Seq<char> {
    seq!['\u{1f}']
}

/// The key under which a shape stores a cell: the bare cell name for a
/// shape-level cell, or `<section>␟IX:<row>␟<name>` / `<section>␟N:<row>␟<name>`
/// for a section row cell.
pub open spec fn spec_locator_key(locator: CellLocator) -> Seq<char> {
    match (locator.section, locator.row) {
        (Some(section), Some(CellRow::Index(row))) => spec_section_key(
            section@,
            locator.section_index,
        ) + unit_separator() + "IX:"@ + decimal(row as nat) + unit_separator()
            + locator.cell_name@,
        (Some(section), Some(CellRow::Name(row))) => spec_section_key(
            section@,
            locator.section_index,
        ) + unit_separator() + "N:"@ + row@ + unit_separator() + locator.cell_name@,
        _ => locator.cell_name@,
    }
}

/// The key under which a shape stores the cell a locator names.
pub fn locator_key(locator: &CellLocator) -> (res: String)
    ensures
        res@ == spec_locator_key(*locator),
{
    match (&locator.section, &locator.row) {
        (Some(section), Some(row)) => {
            let mut key = owned(section.as_str());
            match locator.section_index {
                Some(i) => {
                    append(&mut key, "[");
                    let digits = decimal_string(i);
                    append(&mut key, digits.as_str());
                    append(&mut key, "]");
                },
                None => {},
            }
            append(&mut key, "\u{1f}");
            match row {
                CellRow::Index(index) => {
                    append(&mut key, "IX:");
                    let digits = decimal_string(*index);
                    append(&mut key, digits.as_str());
                },
                CellRow::Name(name) => {
                    append(&mut key, "N:");
                    append(&mut key, name.as_str());
                },
            }
            append(&mut key, "\u{1f}");
            append(&mut key, locator.cell_name.as_str());
            proof {
                reveal_strlit("\u{1f}");
                assert("\u{1f}"@ =~= unit_separator());
            }
            key
        },
        _ => locator.cell_name.clone(),
    }
}

/// The shape ID in front of the first `/` of a formula key, or the whole key.
pub open spec fn spec_shape_id_prefix(key: Seq<char>) -> Seq<char> {
    let i = first_index(key, |c: char| c == '/');
    if i < key.len() {
        key.take(i)
    } else {
        key
    }
}

/// The shape ID in front of the first `/` of a formula key.
pub fn shape_id_prefix(key: &str) -> (res: &str)
    ensures
        res@ == spec_shape_id_prefix(key@),
{
    let ghost p = |c: char| c == '/';
    let n = key.unicode_len();
    let mut i: usize = 0;
    while i < n
        invariant
            n == key@.len(),
            i <= n,
            p == (|c: char| c == '/'),
            forall|j: int| 0 <= j < i ==> !p(#[trigger] key@[j]),
        decreases n - i,
    {
        if key.get_char(i) == '/' {
            proof {
                lemma_find_first_skip(key@, p, i as int);
                assert(key@.skip(i as int)[0] == '/');
            }
            return key.substring_char(0, i);
        }
        i = i + 1;
    }
    proof {
        lemma_find_first_skip(key@, p, n as int);
        assert(key@.skip(n as int).len() == 0);
    }
    key
}

/// The cell a lock protects: the pin for move locks, the size for size and
/// aspect locks, the text for the text lock; other locks protect no one cell.
pub open spec fn spec_lock_target(lock: Seq<char>) -> Option<Seq<char>> {
    if lock == "LockMoveX"@ {
        Some("PinX"@)
    } else if lock == "LockMoveY"@ {
        Some("PinY"@)
    } else if lock == "LockWidth"@ {
        Some("Width"@)
    } else if lock == "LockHeight"@ {
        Some("Height"@)
    } else if lock == "LockAspect"@ {
        Some("Width"@)
    } else if lock == "LockTextEdit"@ {
        Some("Text"@)
    } else {
        None
    }
}

/// The cell a lock protects.
pub fn lock_target(lock: &str) -> (res: Option<&'static str>)
    ensures
        match spec_lock_target(lock@) {
            Some(t) => res matches Some(r) && r@ == t,
            None => res is None,
        },
{
    if str_eq(lock, "LockMoveX") {
        Some("PinX")
    } else if str_eq(lock, "LockMoveY") {
        Some("PinY")
    } else if str_eq(lock, "LockWidth") {
        Some("Width")
    } else if str_eq(lock, "LockHeight") {
        Some("Height")
    } else if str_eq(lock, "LockAspect") {
        Some("Width")
    } else if str_eq(lock, "LockTextEdit") {
        Some("Text")
    } else {
        None
    }
}

/// The gesture an edit of a cell stands for: moves for the pin, resizes for
/// the size, a plain cell edit otherwise.
pub open spec fn spec_gesture_for_cell(name: Seq<char>) -> MutationGesture {
    if name == "PinX"@ {
        MutationGesture::MoveX
    } else if name == "PinY"@ {
        MutationGesture::MoveY
    } else if name == "Width"@ {
        MutationGesture::ResizeWidth
    } else if name == "Height"@ {
        MutationGesture::ResizeHeight
    } else {
        MutationGesture::CellEdit
    }
}

/// The gesture an edit of a cell stands for.
pub fn gesture_for_cell(cell_name: &str) -> (res: MutationGesture)
    ensures
        res == spec_gesture_for_cell(cell_name@),
{
    if str_eq(cell_name, "PinX") {
        MutationGesture::MoveX
    } else if str_eq(cell_name, "PinY") {
        MutationGesture::MoveY
    } else if str_eq(cell_name, "Width") {
        MutationGesture::ResizeWidth
    } else if str_eq(cell_name, "Height") {
        MutationGesture::ResizeHeight
    } else {
        MutationGesture::CellEdit
    }
}

/// The ASCII lower-case form of a character; other characters are unchanged.
pub open spec fn ascii_lower(c: char) -> char {
    if 'A' <= c && c <= 'Z' {
        ((c as u32) + 32) as char
    } else {
        c
    }
}

/// Two strings are equal when ASCII letters are compared without case.
pub open spec fn eq_ignore_ascii_case_spec(a: Seq<char>, b: Seq<char>) -> bool {
    a.len() == b.len() && forall|i: int| 0 <= i < a.len() ==> #[trigger] ascii_lower(a[i])
        == ascii_lower(b[i])
}

fn lower(c: char) -> (res: char)
    ensures
        res == ascii_lower(c),
{
    if 'A' <= c && c <= 'Z' {
        ((c as u8) + 32) as char
    } else {
        c
    }
}

/// Whether two strings are equal when ASCII letters are compared without case.
pub fn eq_ignore_ascii_case(a: &str, b: &str) -> (res: bool)
    ensures
        res == eq_ignore_ascii_case_spec(a@, b@),
{
    let n = a.unicode_len();
    if n != b.unicode_len() {
        return false;
    }
    let mut i: usize = 0;
    while i < n
        invariant
            n == a@.len(),
            n == b@.len(),
            i <= n,
            forall|j: int| 0 <= j < i ==> #[trigger] ascii_lower(a@[j]) == ascii_lower(b@[j]),
        decreases n - i,
    {
        if lower(a.get_char(i)) != lower(b.get_char(i)) {
            return false;
        }
        i = i + 1;
    }
    true
}

/// A reference to the shape's width or height, in any ASCII case.
pub open spec fn spec_is_size_cell(name: Seq<char>) -> bool {
    eq_ignore_ascii_case_spec(name, "Width"@) || eq_ignore_ascii_case_spec(name, "Height"@)
}

/// Whether a reference names the shape's width or height, in any ASCII case.
pub fn is_size_cell(name: &str) -> (res: bool)
    ensures
        res == spec_is_size_cell(name@),
{
    eq_ignore_ascii_case(name, "Width") || eq_ignore_ascii_case(name, "Height")
}

/// The overriding value a size reference reads while a resize is evaluated:
/// the requested width for `Width`, the requested height for `Height`.
pub fn size_value<'b>(name: &str, width: &'b String, height: &'b String) -> (res: Option<&'b String>)
    ensures
        eq_ignore_ascii_case_spec(name@, "Width"@) ==> res == Some(width),
        !eq_ignore_ascii_case_spec(name@, "Width"@) && eq_ignore_ascii_case_spec(name@, "Height"@)
            ==> res == Some(height),
        !spec_is_size_cell(name@) ==> res is None,
{
    if eq_ignore_ascii_case(name, "Width") {
        Some(width)
    } else if eq_ignore_ascii_case(name, "Height") {
        Some(height)
    } else {
        None
    }
}

} // verus!
