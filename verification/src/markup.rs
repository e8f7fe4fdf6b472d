//! The ShapeSheet XML that a save writes for a shape that exists only in the
//! session: attribute and text escaping, `<Cell>` elements, and a `<Shape>`
//! element whose section cells are grouped into sections and rows in order of
//! first appearance.

use vstd::prelude::*;

use crate::edit_model::{CellSnapshot, ShapeSnapshot};
use crate::sheet::CellRow;
use crate::text::{append, decimal, decimal_string, push_char};

verus! {

/// The escaped spelling of one character in XML text or attribute content.
pub open spec fn escape_char(c: char) -> Seq<char> {
    if c == '&' {
        seq!['&', 'a', 'm', 'p', ';']
    } else if c == '<' {
        seq!['&', 'l', 't', ';']
    } else if c == '>' {
        seq!['&', 'g', 't', ';']
    } else if c == '"' {
        seq!['&', 'q', 'u', 'o', 't', ';']
    } else if c == '\'' {
        seq!['&', 'a', 'p', 'o', 's', ';']
    } else {
        seq![c]
    }
}

/// `s` with each character escaped, in order.
pub open spec fn escaped(s: Seq<char>) -> Seq<char>
    decreases s.len(),
{
    if s.len() == 0 {
        Seq::empty()
    } else {
        escaped(s.drop_last()) + escape_char(s.last())
    }
}

/// Reads escaped content back: the five entities become their characters,
/// everything else stands for itself.
pub open spec fn unescaped(t: Seq<char>) -> Seq<char>
    decreases t.len(),
{
    if t.len() == 0 {
        Seq::empty()
    } else if t.len() >= 5 && t.take(5) == escape_char('&') {
        seq!['&'] + unescaped(t.skip(5))
    } else if t.len() >= 4 && t.take(4) == escape_char('<') {
        seq!['<'] + unescaped(t.skip(4))
    } else if t.len() >= 4 && t.take(4) == escape_char('>') {
        seq!['>'] + unescaped(t.skip(4))
    } else if t.len() >= 6 && t.take(6) == escape_char('"') {
        seq!['"'] + unescaped(t.skip(6))
    } else if t.len() >= 6 && t.take(6) == escape_char('\'') {
        seq!['\''] + unescaped(t.skip(6))
    } else {
        seq![t[0]] + unescaped(t.skip(1))
    }
}

/// Markup-significant characters that may not stand bare in escaped content.
pub open spec fn markup_special(c: char) -> bool {
    c == '<' || c == '>' || c == '"' || c == '\''
}

/// Escaping distributes over concatenation.
pub proof fn lemma_escaped_concat(a: Seq<char>, b: Seq<char>)
    ensures
        escaped(a + b) == escaped(a) + escaped(b),
    decreases b.len(),
{
    if b.len() == 0 {
        assert(a + b =~= a);
        assert(escaped(b) =~= Seq::<char>::empty());
        assert(escaped(a) + escaped(b) =~= escaped(a));
    } else {
        lemma_escaped_concat(a, b.drop_last());
        assert((a + b).drop_last() =~= a + b.drop_last());
        assert((a + b).last() == b.last());
        assert(escaped(a + b) == escaped(a + b.drop_last()) + escape_char(b.last()));
        assert(escaped(a) + escaped(b) =~= escaped(a) + escaped(b.drop_last()) + escape_char(
            b.last(),
        ));
    }
}

proof fn lemma_escaped_one(c: char)
    ensures
        escaped(seq![c]) == escape_char(c),
{
    assert(seq![c].drop_last() =~= Seq::<char>::empty());
    assert(escaped(Seq::<char>::empty()) =~= Seq::<char>::empty());
    assert(Seq::<char>::empty() + escape_char(c) =~= escape_char(c));
}

proof fn lemma_unescape_entity(e: Seq<char>, c: char, rest: Seq<char>)
    requires
        e == escape_char(c),
    ensures
        unescaped(e + rest) == seq![c] + unescaped(rest),
{
    let t = e + rest;
    assert(t.len() >= 5 ==> t.take(5)[0] == t[0] && t.take(5)[1] == t[1] && t.take(5)[4] == t[4]);
    assert(t.len() >= 4 ==> t.take(4)[0] == t[0] && t.take(4)[1] == t[1]);
    assert(t.len() >= 6 ==> t.take(6)[0] == t[0] && t.take(6)[1] == t[1]);
    if c == '&' {
        assert(t.take(5) =~= e);
        assert(t.skip(5) =~= rest);
    } else if c == '<' {
        assert(t.take(4) =~= e);
        assert(t.skip(4) =~= rest);
    } else if c == '>' {
        assert(t.take(4) =~= e);
        assert(t.skip(4) =~= rest);
    } else if c == '"' {
        assert(t.take(6) =~= e);
        assert(t.skip(6) =~= rest);
    } else if c == '\'' {
        assert(t.take(6) =~= e);
        assert(t.skip(6) =~= rest);
        assert(t[4] == 's');
    } else {
        assert(t[0] == c);
        assert(t.skip(1) =~= rest);
    }
}

/// Unescaping gives back exactly what was escaped.
pub proof fn lemma_unescape_escaped(s: Seq<char>)
    ensures
        unescaped(escaped(s)) == s,
    decreases s.len(),
{
    if s.len() == 0 {
        assert(escaped(s) =~= Seq::<char>::empty());
    } else {
        let rest = s.skip(1);
        assert(s =~= seq![s[0]] + rest);
        lemma_escaped_concat(seq![s[0]], rest);
        lemma_escaped_one(s[0]);
        lemma_unescape_entity(escape_char(s[0]), s[0], escaped(rest));
        lemma_unescape_escaped(rest);
        assert(seq![s[0]] + rest =~= s);
    }
}

/// Escaped content holds none of `<`, `>`, `"` and `'`.
pub proof fn lemma_escaped_has_no_markup(s: Seq<char>)
    ensures
        forall|i: int| 0 <= i < escaped(s).len() ==> !markup_special(#[trigger] escaped(s)[i]),
    decreases s.len(),
{
    if s.len() > 0 {
        lemma_escaped_has_no_markup(s.drop_last());
        let prev = escaped(s.drop_last());
        let tail = escape_char(s.last());
        assert forall|i: int| 0 <= i < escaped(s).len() implies !markup_special(
            #[trigger] escaped(s)[i],
        ) by {
            if i < prev.len() {
                assert(escaped(s)[i] == prev[i]);
            } else {
                assert(escaped(s)[i] == tail[i - prev.len()]);
            }
        }
    }
}

/// Appends `value` to `output` with the five XML special characters escaped.
pub fn xml_escape(output: &mut String, value: &str)
    ensures
        final(output)@ == old(output)@ + escaped(value@),
{
    let n = value.unicode_len();
    let ghost start = output@;
    let mut i: usize = 0;
    while i < n
        invariant
            n == value@.len(),
            i <= n,
            output@ == start + escaped(value@.take(i as int)),
        decreases n - i,
    {
        let c = value.get_char(i);
        let ghost before = output@;
        if c == '&' {
            append(output, "&amp;");
            proof {
                reveal_strlit("&amp;");
                assert("&amp;"@ =~= escape_char(c));
            }
        } else if c == '<' {
            append(output, "&lt;");
            proof {
                reveal_strlit("&lt;");
                assert("&lt;"@ =~= escape_char(c));
            }
        } else if c == '>' {
            append(output, "&gt;");
            proof {
                reveal_strlit("&gt;");
                assert("&gt;"@ =~= escape_char(c));
            }
        } else if c == '"' {
            append(output, "&quot;");
            proof {
                reveal_strlit("&quot;");
                assert("&quot;"@ =~= escape_char(c));
            }
        } else if c == '\'' {
            append(output, "&apos;");
            proof {
                reveal_strlit("&apos;");
                assert("&apos;"@ =~= escape_char(c));
            }
        } else {
            push_char(output, c);
            assert(before.push(c) =~= before + escape_char(c));
        }
        proof {
            let p = value@.take(i + 1);
            assert(p.drop_last() =~= value@.take(i as int));
            assert(p.last() == c);
            assert(start + escaped(p) =~= before + escape_char(c));
        }
        i = i + 1;
    }
    assert(value@.take(n as int) =~= value@);
}

/// The `<Cell>` element for a snapshot cell: its name, then its formula and
/// value when it has them.
pub open spec fn cell_markup(cell: CellSnapshot) -> Seq<char> {
    "<Cell N=\""@ + escaped(cell.name@) + "\""@ + match cell.formula {
        Some(f) => " F=\""@ + escaped(f@) + "\""@,
        None => Seq::empty(),
    } + match cell.value {
        Some(v) => " V=\""@ + escaped(v@) + "\""@,
        None => Seq::empty(),
    } + "/>"@
}

/// Appends the `<Cell>` element of `cell` to `output`.
pub fn cell_xml(output: &mut String, cell: &CellSnapshot)
    ensures
        final(output)@ == old(output)@ + cell_markup(*cell),
{
    let ghost start = output@;
    append(output, "<Cell N=\"");
    xml_escape(output, cell.name.as_str());
    append(output, "\"");
    let ghost after_name = output@;
    match &cell.formula {
        Some(formula) => {
            append(output, " F=\"");
            xml_escape(output, formula.as_str());
            append(output, "\"");
        },
        None => {},
    }
    let ghost after_formula = output@;
    match &cell.value {
        Some(value) => {
            append(output, " V=\"");
            xml_escape(output, value.as_str());
            append(output, "\"");
        },
        None => {},
    }
    let ghost after_value = output@;
    append(output, "/>");
    proof {
        let fpart = match &cell.formula {
            Some(f) => " F=\""@ + escaped(f@) + "\""@,
            None => Seq::<char>::empty(),
        };
        let vpart = match &cell.value {
            Some(v) => " V=\""@ + escaped(v@) + "\""@,
            None => Seq::<char>::empty(),
        };
        assert(after_formula =~= after_name + fpart);
        assert(after_value =~= after_formula + vpart);
        assert(output@ =~= start + cell_markup(*cell));
    }
}

/// Two row designators name the same row.
pub open spec fn same_row_designator(a: Option<CellRow>, b: Option<CellRow>) -> bool {
    match (a, b) {
        (None, None) => true,
        (Some(CellRow::Index(x)), Some(CellRow::Index(y))) => x == y,
        (Some(CellRow::Name(x)), Some(CellRow::Name(y))) => x@ == y@,
        _ => false,
    }
}

/// Two cells belong to the same section: same section name and section index.
pub open spec fn same_section(a: CellSnapshot, b: CellSnapshot) -> bool {
    match (a.locator.section, b.locator.section) {
        (Some(x), Some(y)) => x@ == y@ && a.locator.section_index == b.locator.section_index,
        _ => false,
    }
}

/// Two cells belong to the same row of the same section.
pub open spec fn same_row(a: CellSnapshot, b: CellSnapshot) -> bool {
    same_section(a, b) && same_row_designator(a.locator.row, b.locator.row)
}

/// Cell `i` is the first cell of its section.
pub open spec fn first_of_section(cells: Seq<CellSnapshot>, i: int) -> bool {
    cells[i].locator.section is Some && forall|j: int|
        0 <= j < i ==> !same_section(#[trigger] cells[j], cells[i])
}

/// Cell `i` is the first cell of its row.
pub open spec fn first_of_row(cells: Seq<CellSnapshot>, i: int) -> bool {
    cells[i].locator.section is Some && forall|j: int|
        0 <= j < i ==> !same_row(#[trigger] cells[j], cells[i])
}

/// The `<Cell>` elements of the shape-level cells among the first `n`.
pub open spec fn top_cells_markup(cells: Seq<CellSnapshot>, n: int) -> Seq<char>
    decreases n,
{
    if n <= 0 {
        Seq::empty()
    } else {
        top_cells_markup(cells, n - 1) + if cells[n - 1].locator.section is None {
            cell_markup(cells[n - 1])
        } else {
            Seq::empty()
        }
    }
}

/// The `<Cell>` elements, among the first `n` cells, of the row that cell `head` is in.
pub open spec fn row_cells_markup(cells: Seq<CellSnapshot>, head: int, n: int) -> Seq<char>
    decreases n,
{
    if n <= 0 {
        Seq::empty()
    } else {
        row_cells_markup(cells, head, n - 1) + if same_row(cells[n - 1], cells[head]) {
            cell_markup(cells[n - 1])
        } else {
            Seq::empty()
        }
    }
}

/// The first row type, among the first `n` cells, of the row that cell `head` is in.
pub open spec fn row_type_of(cells: Seq<CellSnapshot>, head: int, n: int) -> Option<Seq<char>>
    decreases n,
{
    if n <= 0 {
        None
    } else {
        match row_type_of(cells, head, n - 1) {
            Some(t) => Some(t),
            None => if same_row(cells[n - 1], cells[head]) && cells[n - 1].row_type is Some {
                Some(cells[n - 1].row_type.unwrap()@)
            } else {
                None
            },
        }
    }
}

/// The attribute that names a row: `IX` for an indexed row, `N` for a named one.
pub open spec fn row_designator_markup(row: Option<CellRow>) -> Seq<char> {
    match row {
        Some(CellRow::Index(i)) => " IX=\""@ + decimal(i as nat) + "\""@,
        Some(CellRow::Name(n)) => " N=\""@ + escaped(n@) + "\""@,
        None => Seq::empty(),
    }
}

/// The `<Row>` element of the row that cell `head` is in.
pub open spec fn row_markup(cells: Seq<CellSnapshot>, head: int) -> Seq<char> {
    "<Row"@ + row_designator_markup(cells[head].locator.row) + match row_type_of(
        cells,
        head,
        cells.len() as int,
    ) {
        Some(t) => " T=\""@ + escaped(t) + "\""@,
        None => Seq::empty(),
    } + ">"@ + row_cells_markup(cells, head, cells.len() as int) + "</Row>"@
}

/// The `<Row>` elements, among the first `n` cells, of the section that cell `head` is in.
pub open spec fn section_rows_markup(cells: Seq<CellSnapshot>, head: int, n: int) -> Seq<char>
    decreases n,
{
    if n <= 0 {
        Seq::empty()
    } else {
        section_rows_markup(cells, head, n - 1) + if same_section(cells[n - 1], cells[head])
            && first_of_row(cells, n - 1) {
            row_markup(cells, n - 1)
        } else {
            Seq::empty()
        }
    }
}

/// The `<Section>` element of the section that cell `head` is in.
pub open spec fn section_markup(cells: Seq<CellSnapshot>, head: int) -> Seq<char> {
    "<Section N=\""@ + escaped(cells[head].locator.section.unwrap()@) + match cells[head].locator.section_index {
        Some(i) => "\" IX=\""@ + decimal(i as nat),
        None => Seq::empty(),
    } + "\">"@ + section_rows_markup(cells, head, cells.len() as int) + "</Section>"@
}

/// The `<Section>` elements of the sections that the first `n` cells open.
pub open spec fn sections_markup(cells: Seq<CellSnapshot>, n: int) -> Seq<char>
    decreases n,
{
    if n <= 0 {
        Seq::empty()
    } else {
        sections_markup(cells, n - 1) + if first_of_section(cells, n - 1) {
            section_markup(cells, n - 1)
        } else {
            Seq::empty()
        }
    }
}

/// The `<Shape>` element for a shape added in the session: ID and name, the
/// shape-level cells, the sections in order of first appearance with their
/// rows in order of first appearance, and the text when there is one.
pub open spec fn shape_markup(shape: ShapeSnapshot, text: Option<Seq<char>>) -> Seq<char> {
    let cells = shape.cells@;
    "<Shape Type=\"Shape\" ID=\""@ + decimal(shape.source_id as nat) + "\""@ + match shape.name {
        Some(n) => " Name=\""@ + escaped(n@) + "\""@,
        None => Seq::empty(),
    } + ">"@ + top_cells_markup(cells, cells.len() as int) + sections_markup(
        cells,
        cells.len() as int,
    ) + match text {
        Some(t) => "<Text>"@ + escaped(t) + "</Text>"@,
        None => Seq::empty(),
    } + "</Shape>"@
}

fn same_row_designator_exec(a: &Option<CellRow>, b: &Option<CellRow>) -> (res: bool)
    ensures
        res == same_row_designator(*a, *b),
{
    match (a, b) {
        (None, None) => true,
        (Some(CellRow::Index(x)), Some(CellRow::Index(y))) => *x == *y,
        (Some(CellRow::Name(x)), Some(CellRow::Name(y))) => *x == *y,
        _ => false,
    }
}

fn same_section_exec(a: &CellSnapshot, b: &CellSnapshot) -> (res: bool)
    ensures
        res == same_section(*a, *b),
{
    match (&a.locator.section, &b.locator.section) {
        (Some(x), Some(y)) => *x == *y && a.locator.section_index == b.locator.section_index,
        _ => false,
    }
}

fn same_row_exec(a: &CellSnapshot, b: &CellSnapshot) -> (res: bool)
    ensures
        res == same_row(*a, *b),
{
    same_section_exec(a, b) && same_row_designator_exec(&a.locator.row, &b.locator.row)
}

fn is_first_of_section(cells: &Vec<CellSnapshot>, i: usize) -> (res: bool)
    requires
        i < cells@.len(),
    ensures
        res == first_of_section(cells@, i as int),
{
    if cells[i].locator.section.is_none() {
        return false;
    }
    let mut j: usize = 0;
    while j < i
        invariant
            i < cells@.len(),
            j <= i,
            forall|k: int| 0 <= k < j ==> !same_section(#[trigger] cells@[k], cells@[i as int]),
        decreases i - j,
    {
        if same_section_exec(&cells[j], &cells[i]) {
            return false;
        }
        j = j + 1;
    }
    true
}

fn is_first_of_row(cells: &Vec<CellSnapshot>, i: usize) -> (res: bool)
    requires
        i < cells@.len(),
    ensures
        res == first_of_row(cells@, i as int),
{
    if cells[i].locator.section.is_none() {
        return false;
    }
    let mut j: usize = 0;
    while j < i
        invariant
            i < cells@.len(),
            j <= i,
            forall|k: int| 0 <= k < j ==> !same_row(#[trigger] cells@[k], cells@[i as int]),
        decreases i - j,
    {
        if same_row_exec(&cells[j], &cells[i]) {
            return false;
        }
        j = j + 1;
    }
    true
}

fn row_type_exec(cells: &Vec<CellSnapshot>, head: usize) -> (res: Option<&String>)
    requires
        head < cells@.len(),
    ensures
        match res {
            Some(t) => row_type_of(cells@, head as int, cells@.len() as int) == Some(t@),
            None => row_type_of(cells@, head as int, cells@.len() as int) is None,
        },
{
    let n = cells.len();
    let mut k: usize = 0;
    while k < n
        invariant
            n == cells@.len(),
            head < n,
            k <= n,
            row_type_of(cells@, head as int, k as int) is None,
        decreases n - k,
    {
        if same_row_exec(&cells[k], &cells[head]) {
            match &cells[k].row_type {
                Some(t) => {
                    proof {
                        lemma_row_type_stays(cells@, head as int, k as int + 1, n as int);
                    }
                    return Some(t);
                },
                None => {},
            }
        }
        k = k + 1;
    }
    None
}

proof fn lemma_row_type_stays(cells: Seq<CellSnapshot>, head: int, m: int, n: int)
    requires
        0 <= m <= n,
        row_type_of(cells, head, m) is Some,
    ensures
        row_type_of(cells, head, n) == row_type_of(cells, head, m),
    decreases n - m,
{
    if m < n {
        lemma_row_type_stays(cells, head, m, n - 1);
    }
}

fn row_xml(output: &mut String, cells: &Vec<CellSnapshot>, head: usize)
    requires
        head < cells@.len(),
    ensures
        final(output)@ == old(output)@ + row_markup(cells@, head as int),
{
    let ghost start = output@;
    let ghost s = cells@;
    append(output, "<Row");
    match &cells[head].locator.row {
        Some(CellRow::Index(index)) => {
            append(output, " IX=\"");
            let digits = decimal_string(*index);
            append(output, digits.as_str());
            append(output, "\"");
        },
        Some(CellRow::Name(name)) => {
            append(output, " N=\"");
            xml_escape(output, name.as_str());
            append(output, "\"");
        },
        None => {},
    }
    let ghost after_row = output@;
    assert(after_row =~= start + "<Row"@ + row_designator_markup(s[head as int].locator.row));
    match row_type_exec(cells, head) {
        Some(row_type) => {
            append(output, " T=\"");
            xml_escape(output, row_type.as_str());
            append(output, "\"");
        },
        None => {},
    }
    append(output, ">");
    let ghost opened = output@;
    let n = cells.len();
    let mut k: usize = 0;
    while k < n
        invariant
            n == cells@.len(),
            s == cells@,
            head < n,
            k <= n,
            output@ == opened + row_cells_markup(s, head as int, k as int),
        decreases n - k,
    {
        if same_row_exec(&cells[k], &cells[head]) {
            cell_xml(output, &cells[k]);
        }
        k = k + 1;
    }
    append(output, "</Row>");
    proof {
        let tpart = match row_type_of(s, head as int, s.len() as int) {
            Some(t) => " T=\""@ + escaped(t) + "\""@,
            None => Seq::<char>::empty(),
        };
        assert(opened =~= after_row + tpart + ">"@);
        assert(output@ =~= start + row_markup(s, head as int));
    }
}

fn section_xml(output: &mut String, cells: &Vec<CellSnapshot>, head: usize)
    requires
        head < cells@.len(),
        cells@[head as int].locator.section is Some,
    ensures
        final(output)@ == old(output)@ + section_markup(cells@, head as int),
{
    let ghost start = output@;
    let ghost s = cells@;
    append(output, "<Section N=\"");
    match &cells[head].locator.section {
        Some(section) => xml_escape(output, section.as_str()),
        None => {},
    }
    let ghost after_name = output@;
    match cells[head].locator.section_index {
        Some(index) => {
            append(output, "\" IX=\"");
            let digits = decimal_string(index);
            append(output, digits.as_str());
        },
        None => {},
    }
    append(output, "\">");
    let ghost opened = output@;
    let n = cells.len();
    let mut j: usize = 0;
    while j < n
        invariant
            n == cells@.len(),
            s == cells@,
            head < n,
            j <= n,
            output@ == opened + section_rows_markup(s, head as int, j as int),
        decreases n - j,
    {
        if same_section_exec(&cells[j], &cells[head]) && is_first_of_row(cells, j) {
            row_xml(output, cells, j);
        }
        j = j + 1;
    }
    append(output, "</Section>");
    proof {
        let ipart = match s[head as int].locator.section_index {
            Some(i) => "\" IX=\""@ + decimal(i as nat),
            None => Seq::<char>::empty(),
        };
        assert(opened =~= after_name + ipart + "\">"@);
        assert(output@ =~= start + section_markup(s, head as int));
    }
}

/// The `<Shape>` element that a save inserts for a shape added in the
/// session, with `text` as its `<Text>` content when given.
pub fn shape_xml(shape: &ShapeSnapshot, text: Option<&str>) -> (res: String)
    ensures
        res@ == shape_markup(
            *shape,
            match text {
                Some(t) => Some(t@),
                None => None,
            },
        ),
{
    let cells = &shape.cells;
    let ghost s = cells@;
    let mut output = String::new();
    append(&mut output, "<Shape Type=\"Shape\" ID=\"");
    let digits = decimal_string(shape.source_id);
    append(&mut output, digits.as_str());
    append(&mut output, "\"");
    let ghost after_id = output@;
    match &shape.name {
        Some(name) => {
            append(&mut output, " Name=\"");
            xml_escape(&mut output, name.as_str());
            append(&mut output, "\"");
        },
        None => {},
    }
    append(&mut output, ">");
    let ghost opened = output@;
    let n = cells.len();
    let mut i: usize = 0;
    while i < n
        invariant
            n == cells@.len(),
            s == cells@,
            i <= n,
            output@ == opened + top_cells_markup(s, i as int),
        decreases n - i,
    {
        if cells[i].locator.section.is_none() {
            cell_xml(&mut output, &cells[i]);
        }
        i = i + 1;
    }
    let ghost after_cells = output@;
    let mut i: usize = 0;
    while i < n
        invariant
            n == cells@.len(),
            s == cells@,
            i <= n,
            output@ == after_cells + sections_markup(s, i as int),
        decreases n - i,
    {
        if is_first_of_section(cells, i) {
            section_xml(&mut output, cells, i);
        }
        i = i + 1;
    }
    let ghost after_sections = output@;
    match text {
        Some(t) => {
            append(&mut output, "<Text>");
            xml_escape(&mut output, t);
            append(&mut output, "</Text>");
        },
        None => {},
    }
    let ghost after_text = output@;
    append(&mut output, "</Shape>");
    proof {
        let npart = match &shape.name {
            Some(nm) => " Name=\""@ + escaped(nm@) + "\""@,
            None => Seq::<char>::empty(),
        };
        let tpart = match text {
            Some(t) => "<Text>"@ + escaped(t@) + "</Text>"@,
            None => Seq::<char>::empty(),
        };
        assert(opened =~= after_id + npart + ">"@);
        assert(after_text =~= after_sections + tpart);
    }
    output
}

} // verus!
