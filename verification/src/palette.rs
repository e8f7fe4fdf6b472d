//! The document's colour and font tables: the colour an indexed palette
//! entry names, as a `#RRGGBB` string, and the family a font ID names.

use vstd::prelude::*;

use crate::package::{VsdxPackage, XmlRecord};
use crate::seqs::{find_first, lemma_find_first_index, lemma_find_first_skip};
use crate::text::{owned, parse_i64, push_char, spec_parse_i64, str_eq};

verus! {

/// An attribute that carries a palette entry's index.
pub open spec fn is_index_attr(name: Seq<char>) -> bool {
    name == "IX"@ || name == "Index"@
}

/// An attribute that carries a palette entry's colour.
pub open spec fn is_colour_attr(name: Seq<char>) -> bool {
    name == "RGB"@ || name == "Color"@ || name == "Value"@
}

/// A palette entry with an index attribute that reads as `index`.
pub open spec fn entry_indexed(index: i64) -> spec_fn(XmlRecord) -> bool {
    |r: XmlRecord|
        exists|k: int|
            0 <= k < r.attributes@.len() && is_index_attr(#[trigger] r.attributes@[k].0@)
                && spec_parse_i64(r.attributes@[k].1@) == Some(index)
}

/// A colour attribute.
pub open spec fn colour_attr() -> spec_fn((String, String)) -> bool {
    |a: (String, String)| is_colour_attr(a.0@)
}

/// `s` without its leading `#` characters.
pub open spec fn trim_hashes(s: Seq<char>) -> Seq<char>
    decreases s.len(),
{
    if s.len() > 0 && s[0] == '#' {
        trim_hashes(s.drop_first())
    } else {
        s
    }
}

/// Whether `c` is an ASCII hexadecimal digit.
pub open spec fn is_hex(c: char) -> bool {
    ('0' <= c <= '9') || ('a' <= c <= 'f') || ('A' <= c <= 'F')
}

/// The hexadecimal digits are exactly the ASCII characters `0`-`9`, `a`-`f`
/// and `A`-`F`: a palette value is read as a colour exactly when each of its
/// six characters is one of these.
pub proof fn lemma_hex_digits(c: char)
    ensures
        is_hex(c) <==> listed_hex_digit(c),
{
}

/// One of the 22 characters `0123456789abcdefABCDEF`, listed one by one.
pub open spec fn listed_hex_digit(c: char) -> bool {
    c == '0' || c == '1' || c == '2' || c == '3' || c == '4' || c == '5' || c == '6' || c == '7'
        || c == '8' || c == '9' || c == 'a' || c == 'b' || c == 'c' || c == 'd' || c == 'e' || c
        == 'f' || c == 'A' || c == 'B' || c == 'C' || c == 'D' || c == 'E' || c == 'F'
}

/// A palette entry's colour is its first colour value, leading `#`s
/// dropped, written with one `#`, exactly when that value is six characters
/// each from `0123456789abcdefABCDEF`; otherwise the entry names no colour.
pub proof fn lemma_palette_colour_values(colors: Seq<XmlRecord>, index: i64)
    ensures
        match find_first(colors, entry_indexed(index)) {
            None => spec_palette_colour(colors, index) is None,
            Some(r) => match find_first(r.attributes@, colour_attr()) {
                None => spec_palette_colour(colors, index) is None,
                Some(a) => {
                    let v = trim_hashes(a.1@);
                    if v.len() == 6 && forall|i: int| 0 <= i < 6 ==> #[trigger] listed_hex_digit(v[i]) {
                        spec_palette_colour(colors, index) == Some(seq!['#'] + v)
                    } else {
                        spec_palette_colour(colors, index) is None
                    }
                },
            },
        },
{
    match find_first(colors, entry_indexed(index)) {
        None => {},
        Some(r) => match find_first(r.attributes@, colour_attr()) {
            None => {},
            Some(a) => {
                let v = trim_hashes(a.1@);
                if forall|i: int| 0 <= i < 6 ==> #[trigger] listed_hex_digit(v[i]) {
                    assert forall|i: int| 0 <= i < 6 implies #[trigger] is_hex(v[i]) by {
                        assert(listed_hex_digit(v[i]));
                        lemma_hex_digits(v[i]);
                    }
                }
                if forall|i: int| 0 <= i < 6 ==> #[trigger] is_hex(v[i]) {
                    assert forall|i: int| 0 <= i < 6 implies #[trigger] listed_hex_digit(v[i]) by {
                        assert(is_hex(v[i]));
                        lemma_hex_digits(v[i]);
                    }
                }
            },
        },
    }
}

/// The colour of the first palette entry indexed `index`: its first colour
/// attribute, leading `#`s dropped, when that is six hexadecimal digits,
/// written back with one `#`.
pub open spec fn spec_palette_colour(colors: Seq<XmlRecord>, index: i64) -> Option<Seq<char>> {
    match find_first(colors, entry_indexed(index)) {
        None => None,
        Some(r) => match find_first(r.attributes@, colour_attr()) {
            None => None,
            Some(a) => {
                let v = trim_hashes(a.1@);
                if v.len() == 6 && forall|i: int| 0 <= i < 6 ==> #[trigger] is_hex(v[i]) {
                    Some(seq!['#'] + v)
                } else {
                    None
                }
            },
        },
    }
}

fn is_index_name(name: &str) -> (res: bool)
    ensures
        res == is_index_attr(name@),
{
    str_eq(name, "IX") || str_eq(name, "Index")
}

fn is_colour_name(name: &str) -> (res: bool)
    ensures
        res == is_colour_attr(name@),
{
    str_eq(name, "RGB") || str_eq(name, "Color") || str_eq(name, "Value")
}

fn has_index(record: &XmlRecord, index: i64) -> (res: bool)
    ensures
        res == entry_indexed(index)(*record),
{
    let attrs = &record.attributes;
    let mut k: usize = 0;
    while k < attrs.len()
        invariant
            k <= attrs@.len(),
            attrs == &record.attributes,
            forall|j: int|
                0 <= j < k ==> !(is_index_attr(#[trigger] attrs@[j].0@) && spec_parse_i64(
                    attrs@[j].1@,
                ) == Some(index)),
        decreases attrs.len() - k,
    {
        if is_index_name(attrs[k].0.as_str()) && parse_i64(attrs[k].1.as_str()) == Some(index) {
            return true;
        }
        k = k + 1;
    }
    false
}

fn hashes_end(s: &str) -> (res: usize)
    ensures
        res <= s@.len(),
        trim_hashes(s@) == s@.skip(res as int),
{
    let n = s.unicode_len();
    let mut i: usize = 0;
    assert(s@.skip(0) =~= s@);
    while i < n && s.get_char(i) == '#'
        invariant
            i <= n,
            n == s@.len(),
            trim_hashes(s@) == trim_hashes(s@.skip(i as int)),
        decreases n - i,
    {
        assert(s@.skip(i as int).drop_first() =~= s@.skip(i + 1));
        i = i + 1;
    }
    i
}

fn hex_char(c: char) -> (res: bool)
    ensures
        res == is_hex(c),
{
    ('0' <= c && c <= '9') || ('a' <= c && c <= 'f') || ('A' <= c && c <= 'F')
}

/// The `#RRGGBB` colour of the palette entry with the given index.
pub fn palette_colour(package: &VsdxPackage, index: i64) -> (res: Option<String>)
    ensures
        match res {
            Some(c) => spec_palette_colour(package.colors@, index) == Some(c@),
            None => spec_palette_colour(package.colors@, index) is None,
        },
{
    let colors = &package.colors;
    let ghost p = entry_indexed(index);
    let mut i: usize = 0;
    while i < colors.len()
        invariant
            i <= colors@.len(),
            colors == &package.colors,
            p == entry_indexed(index),
            forall|j: int| 0 <= j < i ==> !p(#[trigger] colors@[j]),
        decreases colors.len() - i,
    {
        if has_index(&colors[i], index) {
            proof {
                lemma_find_first_skip(colors@, p, i as int);
                assert(colors@.skip(i as int)[0] == colors@[i as int]);
            }
            return record_colour(&colors[i]);
        }
        i = i + 1;
    }
    proof {
        lemma_find_first_index(colors@, p);
    }
    None
}

fn record_colour(record: &XmlRecord) -> (res: Option<String>)
    ensures
        match res {
            Some(c) => match find_first(record.attributes@, colour_attr()) {
                Some(a) => {
                    let v = trim_hashes(a.1@);
                    &&& v.len() == 6
                    &&& forall|i: int| 0 <= i < 6 ==> #[trigger] is_hex(v[i])
                    &&& c@ == seq!['#'] + v
                },
                None => false,
            },
            None => match find_first(record.attributes@, colour_attr()) {
                Some(a) => !(trim_hashes(a.1@).len() == 6 && forall|i: int|
                    0 <= i < 6 ==> #[trigger] is_hex(trim_hashes(a.1@)[i])),
                None => true,
            },
        },
{
    let attrs = &record.attributes;
    let ghost q = colour_attr();
    let mut k: usize = 0;
    while k < attrs.len()
        invariant
            k <= attrs@.len(),
            attrs == &record.attributes,
            q == colour_attr(),
            forall|j: int| 0 <= j < k ==> !q(#[trigger] attrs@[j]),
        decreases attrs.len() - k,
    {
        if is_colour_name(attrs[k].0.as_str()) {
            proof {
                lemma_find_first_skip(attrs@, q, k as int);
                assert(attrs@.skip(k as int)[0] == attrs@[k as int]);
                assert(q(attrs@[k as int]));
            }
            let value = attrs[k].1.as_str();
            let start = hashes_end(value);
            let n = value.unicode_len();
            let ghost v = value@.skip(start as int);
            if n - start != 6 {
                return None;
            }
            let mut out = String::new();
            push_char(&mut out, '#');
            let mut j: usize = start;
            while j < n
                invariant
                    start <= j <= n,
                    n == value@.len(),
                    n - start == 6,
                    v == value@.skip(start as int),
                    trim_hashes(value@) == v,
                    value@ == attrs@[k as int].1@,
                    k < attrs@.len(),
                    attrs == &record.attributes,
                    find_first(record.attributes@, colour_attr()) == Some(attrs@[k as int]),
                    out@ == seq!['#'] + v.take(j - start),
                    forall|t: int| 0 <= t < j - start ==> #[trigger] is_hex(v[t]),
                decreases n - j,
            {
                let c = value.get_char(j);
                assert(v[j - start] == c);
                if !hex_char(c) {
                    assert(!is_hex(v[j - start]));
                    return None;
                }
                push_char(&mut out, c);
                assert(v.take(j + 1 - start) =~= v.take(j - start).push(c));
                j = j + 1;
            }
            assert(v.take(6) =~= v);
            return Some(out);
        }
        k = k + 1;
    }
    proof {
        lemma_find_first_index(attrs@, q);
    }
    None
}

/// A font table entry whose `ID` attribute is `font`.
pub open spec fn face_with_id(font: Seq<char>) -> spec_fn(XmlRecord) -> bool {
    |r: XmlRecord|
        exists|k: int|
            0 <= k < r.attributes@.len() && (#[trigger] r.attributes@[k]).0@ == "ID"@
                && r.attributes@[k].1@ == font
}

/// A `Name` attribute.
pub open spec fn name_attr() -> spec_fn((String, String)) -> bool {
    |a: (String, String)| a.0@ == "Name"@
}

/// The family a character run's font names: the `Name` of the first font
/// table entry with that `ID`, else the font value itself.
pub open spec fn spec_font_family(faces: Seq<XmlRecord>, font: Seq<char>) -> Seq<char> {
    match find_first(faces, face_with_id(font)) {
        Some(r) => match find_first(r.attributes@, name_attr()) {
            Some(a) => a.1@,
            None => font,
        },
        None => font,
    }
}

fn has_face_id(record: &XmlRecord, font: &str) -> (res: bool)
    ensures
        res == face_with_id(font@)(*record),
{
    let attrs = &record.attributes;
    let mut k: usize = 0;
    while k < attrs.len()
        invariant
            k <= attrs@.len(),
            attrs == &record.attributes,
            forall|j: int| 0 <= j < k ==> !((#[trigger] attrs@[j]).0@ == "ID"@ && attrs@[j].1@ == font@),
        decreases attrs.len() - k,
    {
        if str_eq(attrs[k].0.as_str(), "ID") && str_eq(attrs[k].1.as_str(), font) {
            return true;
        }
        k = k + 1;
    }
    false
}

/// The family a character run's font value names.
pub fn font_family(package: &VsdxPackage, font: &str) -> (res: String)
    ensures
        res@ == spec_font_family(package.face_names@, font@),
{
    let faces = &package.face_names;
    let ghost p = face_with_id(font@);
    let mut i: usize = 0;
    while i < faces.len()
        invariant
            i <= faces@.len(),
            faces == &package.face_names,
            p == face_with_id(font@),
            forall|j: int| 0 <= j < i ==> !p(#[trigger] faces@[j]),
        decreases faces.len() - i,
    {
        if has_face_id(&faces[i], font) {
            proof {
                lemma_find_first_skip(faces@, p, i as int);
                assert(faces@.skip(i as int)[0] == faces@[i as int]);
            }
            let attrs = &faces[i].attributes;
            let ghost q = name_attr();
            let mut k: usize = 0;
            while k < attrs.len()
                invariant
                    k <= attrs@.len(),
                    i < faces@.len(),
                    faces == &package.face_names,
                    find_first(faces@, face_with_id(font@)) == Some(faces@[i as int]),
                    attrs == &faces@[i as int].attributes,
                    q == name_attr(),
                    forall|j: int| 0 <= j < k ==> !q(#[trigger] attrs@[j]),
                decreases attrs.len() - k,
            {
                if str_eq(attrs[k].0.as_str(), "Name") {
                    proof {
                        lemma_find_first_skip(attrs@, q, k as int);
                        assert(attrs@.skip(k as int)[0] == attrs@[k as int]);
                        assert(q(attrs@[k as int]));
                    }
                    return attrs[k].1.clone();
                }
                k = k + 1;
            }
            proof {
                lemma_find_first_index(attrs@, q);
            }
            return owned(font);
        }
        i = i + 1;
    }
    proof {
        lemma_find_first_index(faces@, p);
    }
    owned(font)
}

} // verus!
