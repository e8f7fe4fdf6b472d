//! The parsed package: catalogued pages, masters, styles and the
//! relationship graph that reaches them, with the path and relationship
//! lookups that discovery uses.

use vstd::prelude::*;

use crate::names::{str_less, str_lt};
use crate::seqs::{
    find_first, find_last, first_index, lemma_find_first_index, lemma_find_first_skip,
    lemma_find_last_take,
};
use crate::sheet::{copy_opt_string, Sheet};
use crate::text::{append, owned, parse_u32, spec_parse_u32, str_eq};

verus! {

/// Whether a relationship targets a part inside the package.
#[derive(Debug, Clone, Copy, PartialEq, Eq, Structural)]
pub enum TargetMode {
    Internal,
    External,
}

/// One relationship of a part's `.rels` part, with its target resolved to a part path.
#[derive(Debug)]
pub struct Relationship {
    pub id: String,
    pub relationship_type: String,
    pub target: String,
    pub target_mode: TargetMode,
    pub resolved_target: Option<String>,
}

/// A generic XML element kept as it was read: its name, attributes in
/// document order, and child elements.
#[derive(Debug)]
pub struct XmlRecord {
    pub name: String,
    pub attributes: Vec<(String, String)>,
    pub children: Vec<XmlRecord>,
}

/// A parsed VSDX package; maps are held as association lists in catalogue order.
#[derive(Debug)]
pub struct VsdxPackage {
    pub document_part_path: String,
    pub pages_part_path: Option<String>,
    pub masters_part_path: Option<String>,
    pub page_part_paths: Vec<String>,
    pub master_part_paths: Vec<String>,
    pub theme_part_paths: Vec<String>,
    pub windows_part_path: Option<String>,
    pub relationships: Vec<(String, Vec<Relationship>)>,
    pub document_sheet: Option<Sheet>,
    pub style_sheets: Vec<Sheet>,
    pub colors: Vec<XmlRecord>,
    pub face_names: Vec<XmlRecord>,
    pub page_sheets: Vec<(u32, Sheet)>,
    pub master_sheets: Vec<(u32, Sheet)>,
    /// The page ID of each page part, read as a map keyed by part path: the
    /// last entry for a path counts, and [`path_for`] takes the path that
    /// sorts first among those with an ID.
    pub page_part_ids: Vec<(String, u32)>,
    /// The master ID of each master part, read as `page_part_ids` is.
    pub master_part_ids: Vec<(String, u32)>,
    pub page_contents: Vec<(String, Sheet)>,
    pub master_contents: Vec<(String, Sheet)>,
    /// The package's parts as they were read, kept for writing it back.
    pub parts: Vec<PackagePart>,
}

/// One part of a package: its path and bytes.
#[derive(Debug)]
pub struct PackagePart {
    pub path: String,
    pub bytes: Vec<u8>,
}

/// Matches a package part by its path.
pub open spec fn part_named(path: Seq<char>) -> spec_fn(PackagePart) -> bool {
    |part: PackagePart| part.path@ == path
}

impl VsdxPackage {
    fn part_index(&self, path: &str) -> (res: Option<usize>)
        ensures
            match res {
                Some(i) => i < self.parts@.len() && i == first_index(self.parts@, part_named(path@))
                    && find_first(self.parts@, part_named(path@)) == Some(self.parts@[i as int])
                    && self.parts@[i as int].path@ == path@,
                None => find_first(self.parts@, part_named(path@)) is None,
            },
    {
        let ghost p = part_named(path@);
        let mut i: usize = 0;
        while i < self.parts.len()
            invariant
                i <= self.parts@.len(),
                p == part_named(path@),
                forall|j: int| 0 <= j < i ==> !p(#[trigger] self.parts@[j]),
            decreases self.parts.len() - i,
        {
            if str_eq(self.parts[i].path.as_str(), path) {
                proof {
                    assert(p(self.parts@[i as int]));
                    lemma_find_first_index(self.parts@, p);
                    if first_index(self.parts@, p) < i {
                        assert(!p(self.parts@[first_index(self.parts@, p)]));
                    }
                }
                return Some(i);
            }
            i = i + 1;
        }
        proof {
            lemma_find_first_index(self.parts@, p);
        }
        None
    }

    /// The bytes of the first part at `path`.
    pub fn part_bytes(&self, path: &str) -> (res: Option<&[u8]>)
        ensures
            match find_first(self.parts@, part_named(path@)) {
                Some(part) => res matches Some(b) && b@ == part.bytes@,
                None => res is None,
            },
    {
        match self.part_index(path) {
            Some(i) => Some(self.parts[i].bytes.as_slice()),
            None => None,
        }
    }

    /// Replaces the bytes of the first part at `path`; says whether there was one.
    pub fn replace_part(&mut self, path: &str, bytes: Vec<u8>) -> (res: bool)
        ensures
            res == (find_first(old(self).parts@, part_named(path@)) is Some),
            res ==> ({
                let i = first_index(old(self).parts@, part_named(path@));
                &&& final(self).parts@.len() == old(self).parts@.len()
                &&& final(self).parts@[i].path@ == path@
                &&& final(self).parts@[i].bytes@ == bytes@
                &&& forall|j: int|
                    0 <= j < old(self).parts@.len() && j != i ==> #[trigger] final(self).parts@[j]
                        == old(self).parts@[j]
            }),
            !res ==> final(self).parts@ == old(self).parts@,
            final(self).document_part_path == old(self).document_part_path,
            final(self).page_part_paths@ == old(self).page_part_paths@,
            final(self).page_contents@ == old(self).page_contents@,
            final(self).master_contents@ == old(self).master_contents@,
    {
        match self.part_index(path) {
            Some(i) => {
                let part = PackagePart { path: self.parts[i].path.clone(), bytes };
                self.parts.set(i, part);
                true
            },
            None => false,
        }
    }

    /// Adds a part at the end of the package's parts.
    pub fn add_part(&mut self, path: String, bytes: Vec<u8>)
        ensures
            final(self).parts@.len() == old(self).parts@.len() + 1,
            final(self).parts@.take(old(self).parts@.len() as int) == old(self).parts@,
            final(self).parts@.last().path == path,
            final(self).parts@.last().bytes == bytes,
            final(self).document_part_path == old(self).document_part_path,
            final(self).page_part_paths@ == old(self).page_part_paths@,
            final(self).page_contents@ == old(self).page_contents@,
            final(self).master_contents@ == old(self).master_contents@,
    {
        self.parts.push(PackagePart { path, bytes });
        assert(self.parts@.take(self.parts@.len() - 1) =~= old(self).parts@);
    }
}

/// Matches a keyed sheet entry by its part path.
pub open spec fn sheet_entry_at(path: Seq<char>) -> spec_fn((String, Sheet)) -> bool {
    |e: (String, Sheet)| e.0@ == path
}

/// Matches a part-ID entry by its part path.
pub open spec fn id_entry_at(path: Seq<char>) -> spec_fn((String, u32)) -> bool {
    |e: (String, u32)| e.0@ == path
}

/// Matches a part-ID entry by its ID.
pub open spec fn id_entry_for(id: u32) -> spec_fn((String, u32)) -> bool {
    |e: (String, u32)| e.1 == id
}

/// Matches a catalogue sheet entry by its ID.
pub open spec fn catalog_entry_for(id: u32) -> spec_fn((u32, Sheet)) -> bool {
    |e: (u32, Sheet)| e.0 == id
}

/// The sheet stored under a part path.
pub open spec fn spec_sheet_at(entries: Seq<(String, Sheet)>, path: Seq<char>) -> Option<Sheet> {
    match find_first(entries, sheet_entry_at(path)) {
        Some(e) => Some(e.1),
        None => None,
    }
}

/// The sheet stored under a part path.
pub fn sheet_at<'a>(entries: &'a Vec<(String, Sheet)>, path: &str) -> (res: Option<&'a Sheet>)
    ensures
        res.is_some() == spec_sheet_at(entries@, path@).is_some(),
        res matches Some(s) ==> spec_sheet_at(entries@, path@) == Some(*s),
{
    let ghost p = sheet_entry_at(path@);
    let mut i: usize = 0;
    while i < entries.len()
        invariant
            i <= entries@.len(),
            p == sheet_entry_at(path@),
            forall|j: int| 0 <= j < i ==> !p(#[trigger] entries@[j]),
        decreases entries.len() - i,
    {
        if str_eq(entries[i].0.as_str(), path) {
            proof {
                lemma_find_first_skip(entries@, p, i as int);
            }
            return Some(&entries[i].1);
        }
        i = i + 1;
    }
    proof {
        lemma_find_first_index(entries@, p);
    }
    None
}

/// The ID catalogued for a part path: a later entry for the same path
/// replaces an earlier one, so the last entry for the path decides.
pub open spec fn spec_id_at(entries: Seq<(String, u32)>, path: Seq<char>) -> Option<u32> {
    match find_last(entries, id_entry_at(path)) {
        Some(e) => Some(e.1),
        None => None,
    }
}

/// The ID catalogued for a part path.
pub fn id_at(entries: &Vec<(String, u32)>, path: &str) -> (res: Option<u32>)
    ensures
        res == spec_id_at(entries@, path@),
{
    let ghost p = id_entry_at(path@);
    let mut i: usize = entries.len();
    while i > 0
        invariant
            i <= entries@.len(),
            p == id_entry_at(path@),
            forall|j: int| i <= j < entries@.len() ==> !p(#[trigger] entries@[j]),
        decreases i,
    {
        if str_eq(entries[i - 1].0.as_str(), path) {
            proof {
                lemma_find_last_take(entries@, p, i as int);
                assert(entries@.take(i as int).last() == entries@[i - 1]);
            }
            return Some(entries[i - 1].1);
        }
        i = i - 1;
    }
    proof {
        lemma_find_last_take(entries@, p, 0);
    }
    None
}

/// Entry `i` is the one the catalogue keeps for its path: no later entry
/// names the same path.
pub open spec fn current_entry(entries: Seq<(String, u32)>, i: int) -> bool {
    forall|j: int| i < j < entries.len() ==> (#[trigger] entries[j]).0@ != entries[i].0@
}

/// Among the first `n` entries, the path that sorts first in `String`'s
/// order among those the catalogue keeps with the ID.
pub open spec fn least_path_for(entries: Seq<(String, u32)>, id: u32, n: int) -> Option<String>
    decreases n,
{
    if n <= 0 {
        None
    } else {
        let rest = least_path_for(entries, id, n - 1);
        let e = entries[n - 1];
        if e.1 == id && current_entry(entries, n - 1) {
            match rest {
                Some(q) => if str_less(e.0@, q@) {
                    Some(e.0)
                } else {
                    rest
                },
                None => Some(e.0),
            }
        } else {
            rest
        }
    }
}

/// The part path catalogued with an ID: of the paths whose entry carries
/// the ID, the one that sorts first.
pub open spec fn spec_path_for(entries: Seq<(String, u32)>, id: u32) -> Option<String> {
    least_path_for(entries, id, entries.len() as int)
}

fn is_current(entries: &Vec<(String, u32)>, i: usize) -> (res: bool)
    requires
        i < entries@.len(),
    ensures
        res == current_entry(entries@, i as int),
{
    let n = entries.len();
    let mut j: usize = i + 1;
    while j < n
        invariant
            i < j <= n,
            n == entries@.len(),
            forall|k: int| i < k < j ==> (#[trigger] entries@[k]).0@ != entries@[i as int].0@,
        decreases entries.len() - j,
    {
        if str_eq(entries[j].0.as_str(), entries[i].0.as_str()) {
            return false;
        }
        j = j + 1;
    }
    true
}

/// The part path catalogued with an ID.
pub fn path_for<'a>(entries: &'a Vec<(String, u32)>, id: u32) -> (res: Option<&'a String>)
    ensures
        res.is_some() == spec_path_for(entries@, id).is_some(),
        res matches Some(p) ==> spec_path_for(entries@, id) == Some(*p),
{
    let mut best: Option<usize> = None;
    let mut i: usize = 0;
    while i < entries.len()
        invariant
            i <= entries@.len(),
            match best {
                Some(k) => k < i && least_path_for(entries@, id, i as int) == Some(entries@[k as int].0),
                None => least_path_for(entries@, id, i as int) is None,
            },
        decreases entries.len() - i,
    {
        if entries[i].1 == id && is_current(entries, i) {
            match best {
                Some(k) => {
                    if str_lt(entries[i].0.as_str(), entries[k].0.as_str()) {
                        best = Some(i);
                    }
                },
                None => {
                    best = Some(i);
                },
            }
        }
        i = i + 1;
    }
    match best {
        Some(k) => Some(&entries[k].0),
        None => None,
    }
}

/// The catalogue sheet stored under an ID.
pub open spec fn spec_catalog_sheet(entries: Seq<(u32, Sheet)>, id: u32) -> Option<Sheet> {
    match find_first(entries, catalog_entry_for(id)) {
        Some(e) => Some(e.1),
        None => None,
    }
}

/// The catalogue sheet stored under an ID.
pub fn catalog_sheet<'a>(entries: &'a Vec<(u32, Sheet)>, id: u32) -> (res: Option<&'a Sheet>)
    ensures
        res.is_some() == spec_catalog_sheet(entries@, id).is_some(),
        res matches Some(s) ==> spec_catalog_sheet(entries@, id) == Some(*s),
{
    let ghost p = catalog_entry_for(id);
    let mut i: usize = 0;
    while i < entries.len()
        invariant
            i <= entries@.len(),
            p == catalog_entry_for(id),
            forall|j: int| 0 <= j < i ==> !p(#[trigger] entries@[j]),
        decreases entries.len() - i,
    {
        if entries[i].0 == id {
            proof {
                lemma_find_first_skip(entries@, p, i as int);
            }
            return Some(&entries[i].1);
        }
        i = i + 1;
    }
    proof {
        lemma_find_first_index(entries@, p);
    }
    None
}


/// Why reading a package failed, for the failures that part discovery reports.
#[derive(Debug)]
pub enum VsdxError {
    /// A part that discovery requires is not in the package.
    MissingPart(String),
    /// A catalogue entry names a relationship that its part does not resolve.
    InvalidRelationship { source_part: String, target: String },
}

/// Whether a relationship is of the given type.
pub open spec fn has_type(r: Relationship, kind: Seq<char>) -> bool {
    r.relationship_type@ == kind
}

/// Matches a relationship of the given type.
pub open spec fn typed(kind: Seq<char>) -> spec_fn(Relationship) -> bool {
    |r: Relationship| has_type(r, kind)
}

/// The position of the last `c` in `s`, or -1.
pub open spec fn last_index_of(s: Seq<char>, c: char) -> int
    decreases s.len(),
{
    if s.len() == 0 {
        -1
    } else if s.last() == c {
        s.len() - 1
    } else {
        last_index_of(s.drop_last(), c)
    }
}

/// The path of the relationships part of a source part: `_rels/.rels` for
/// the package itself, else `<directory>/_rels/<name>.rels`, splitting at the
/// last `/`.
pub open spec fn spec_relationship_path(source: Seq<char>) -> Seq<char> {
    let k = last_index_of(source, '/');
    if source.len() == 0 {
        "_rels/.rels"@
    } else if k >= 0 {
        source.take(k) + "/_rels/"@ + source.skip(k + 1) + ".rels"@
    } else {
        "_rels/"@ + source + ".rels"@
    }
}

proof fn lemma_last_index_of(s: Seq<char>, c: char)
    ensures
        -1 <= last_index_of(s, c) < s.len(),
        last_index_of(s, c) >= 0 ==> s[last_index_of(s, c)] == c,
        forall|j: int| last_index_of(s, c) < j < s.len() ==> s[j] != c,
    decreases s.len(),
{
    if s.len() > 0 && s.last() != c {
        lemma_last_index_of(s.drop_last(), c);
        assert forall|j: int| last_index_of(s, c) < j < s.len() implies s[j] != c by {
            if j < s.len() - 1 {
                assert(s[j] == s.drop_last()[j]);
            }
        }
    }
}

fn last_slash(s: &str) -> (res: Option<usize>)
    ensures
        match res {
            Some(k) => k as int == last_index_of(s@, '/') && k < s@.len(),
            None => last_index_of(s@, '/') == -1,
        },
{
    let n = s.unicode_len();
    let mut i: usize = n;
    proof {
        lemma_last_index_of(s@, '/');
    }
    while i > 0
        invariant
            n == s@.len(),
            i <= n,
            forall|j: int| i <= j < n ==> s@[j] != '/',
        decreases i,
    {
        if s.get_char(i - 1) == '/' {
            proof {
                lemma_last_index_of(s@, '/');
            }
            return Some(i - 1);
        }
        i = i - 1;
    }
    proof {
        lemma_last_index_of(s@, '/');
        if last_index_of(s@, '/') >= 0 {
            assert(s@[last_index_of(s@, '/')] == '/');
        }
    }
    None
}

/// The path of the relationships part that belongs to `source`.
pub fn relationship_path(source: &str) -> (res: String)
    ensures
        res@ == spec_relationship_path(source@),
{
    let n = source.unicode_len();
    if n == 0 {
        return owned("_rels/.rels");
    }
    match last_slash(source) {
        Some(k) => {
            let mut path = owned(source.substring_char(0, k));
            append(&mut path, "/_rels/");
            append(&mut path, source.substring_char(k + 1, n));
            append(&mut path, ".rels");
            path
        },
        None => {
            let mut path = owned("_rels/");
            append(&mut path, source);
            append(&mut path, ".rels");
            path
        },
    }
}

/// Matches a package part by its path.
pub open spec fn part_at(path: Seq<char>) -> spec_fn((String, Vec<u8>)) -> bool {
    |part: (String, Vec<u8>)| part.0@ == path
}

/// Whether the package holds a part at `path`.
pub open spec fn has_part(parts: Seq<(String, Vec<u8>)>, path: Seq<char>) -> bool {
    exists|i: int| 0 <= i < parts.len() && (#[trigger] parts[i]).0@ == path
}

/// Succeeds when the package holds the part at `path`, else names it as missing.
pub fn require_part(parts: &Vec<(String, Vec<u8>)>, path: &str) -> (res: Result<(), VsdxError>)
    ensures
        has_part(parts@, path@) ==> res is Ok,
        !has_part(parts@, path@) ==> (res matches Err(VsdxError::MissingPart(p)) && p@ == path@),
{
    let mut i: usize = 0;
    while i < parts.len()
        invariant
            i <= parts@.len(),
            forall|j: int| 0 <= j < i ==> (#[trigger] parts@[j]).0@ != path@,
        decreases parts.len() - i,
    {
        if str_eq(parts[i].0.as_str(), path) {
            assert(parts@[i as int].0@ == path@);
            return Ok(());
        }
        i = i + 1;
    }
    Err(VsdxError::MissingPart(owned(path)))
}

/// The resolved target of the first relationship of the given type.
pub open spec fn spec_target_by_type(rels: Seq<Relationship>, kind: Seq<char>) -> Option<Seq<char>> {
    match find_first(rels, typed(kind)) {
        Some(r) => match r.resolved_target {
            Some(t) => Some(t@),
            None => None,
        },
        None => None,
    }
}

/// The resolved target of the first relationship of type `kind`, if it resolved.
pub fn target_by_type(relationships: &Vec<Relationship>, kind: &str) -> (res: Option<String>)
    ensures
        match res {
            Some(t) => spec_target_by_type(relationships@, kind@) == Some(t@),
            None => spec_target_by_type(relationships@, kind@) is None,
        },
{
    let ghost p = typed(kind@);
    let mut i: usize = 0;
    while i < relationships.len()
        invariant
            i <= relationships@.len(),
            p == typed(kind@),
            forall|j: int| 0 <= j < i ==> !p(#[trigger] relationships@[j]),
        decreases relationships.len() - i,
    {
        if str_eq(relationships[i].relationship_type.as_str(), kind) {
            proof {
                lemma_find_first_skip(relationships@, p, i as int);
                assert(p(relationships@.skip(i as int)[0]));
            }
            return copy_opt_string(&relationships[i].resolved_target);
        }
        i = i + 1;
    }
    proof {
        lemma_find_first_index(relationships@, p);
    }
    None
}

/// The resolved targets of the relationships of the given type among the
/// first `n`, in order, each listed once.
pub open spec fn typed_targets(rels: Seq<Relationship>, kind: Seq<char>, n: int) -> Seq<Seq<char>>
    decreases n,
{
    if n <= 0 {
        Seq::empty()
    } else {
        let prev = typed_targets(rels, kind, n - 1);
        let r = rels[n - 1];
        if has_type(r, kind) && r.resolved_target is Some && !prev.contains(
            r.resolved_target.unwrap()@,
        ) {
            prev.push(r.resolved_target.unwrap()@)
        } else {
            prev
        }
    }
}

/// The resolved targets of all relationships of type `kind`, in order, each once.
pub fn targets_by_type(relationships: &Vec<Relationship>, kind: &str) -> (res: Vec<String>)
    ensures
        res@.map_values(|t: String| t@) == typed_targets(
            relationships@,
            kind@,
            relationships@.len() as int,
        ),
{
    let mut out: Vec<String> = Vec::new();
    let mut i: usize = 0;
    while i < relationships.len()
        invariant
            i <= relationships@.len(),
            out@.map_values(|t: String| t@) == typed_targets(relationships@, kind@, i as int),
        decreases relationships.len() - i,
    {
        let r = &relationships[i];
        let ghost prev = out@.map_values(|t: String| t@);
        if str_eq(r.relationship_type.as_str(), kind) {
            match &r.resolved_target {
                Some(t) => {
                    let mut seen = false;
                    let mut j: usize = 0;
                    while j < out.len()
                        invariant
                            j <= out@.len(),
                            prev == out@.map_values(|t: String| t@),
                            seen == (exists|k: int| 0 <= k < j && #[trigger] prev[k] == t@),
                        decreases out.len() - j,
                    {
                        if str_eq(out[j].as_str(), t.as_str()) {
                            assert(prev[j as int] == t@);
                            seen = true;
                        }
                        j = j + 1;
                    }
                    if !seen {
                        out.push(t.clone());
                        assert(out@.map_values(|t: String| t@) =~= prev.push(t@));
                    }
                },
                None => {},
            }
        }
        i = i + 1;
    }
    out
}

/// The targets listed for a type hold no duplicates, and are exactly the
/// resolved targets of the relationships of that type.
pub proof fn lemma_typed_targets(rels: Seq<Relationship>, kind: Seq<char>, n: int)
    requires
        0 <= n <= rels.len(),
    ensures
        typed_targets(rels, kind, n).no_duplicates(),
        forall|t: Seq<char>|
            typed_targets(rels, kind, n).contains(t) <==> exists|i: int|
                0 <= i < n && has_type(#[trigger] rels[i], kind) && rels[i].resolved_target
                    is Some && rels[i].resolved_target.unwrap()@ == t,
    decreases n,
{
    if n > 0 {
        lemma_typed_targets(rels, kind, n - 1);
        let prev = typed_targets(rels, kind, n - 1);
        let cur = typed_targets(rels, kind, n);
        let r = rels[n - 1];
        assert forall|t: Seq<char>| cur.contains(t) <==> exists|i: int|
            0 <= i < n && has_type(#[trigger] rels[i], kind) && rels[i].resolved_target is Some
                && rels[i].resolved_target.unwrap()@ == t by {
            if cur.contains(t) {
                let k = choose|k: int| 0 <= k < cur.len() && cur[k] == t;
                if k < prev.len() {
                    assert(prev[k] == t);
                    assert(prev.contains(t));
                    let i = choose|i: int|
                        0 <= i < n - 1 && has_type(#[trigger] rels[i], kind) && rels[i].resolved_target
                            is Some && rels[i].resolved_target.unwrap()@ == t;
                    assert(0 <= i < n);
                } else {
                    assert(has_type(rels[n - 1], kind));
                }
            }
            if exists|i: int|
                0 <= i < n && has_type(#[trigger] rels[i], kind) && rels[i].resolved_target
                    is Some && rels[i].resolved_target.unwrap()@ == t {
                let i = choose|i: int|
                    0 <= i < n && has_type(#[trigger] rels[i], kind) && rels[i].resolved_target
                        is Some && rels[i].resolved_target.unwrap()@ == t;
                if i < n - 1 {
                    assert(prev.contains(t));
                    let k = choose|k: int| 0 <= k < prev.len() && prev[k] == t;
                    assert(cur[k] == t);
                } else if !prev.contains(t) {
                    assert(cur[cur.len() - 1] == t);
                } else {
                    let k = choose|k: int| 0 <= k < prev.len() && prev[k] == t;
                    assert(cur[k] == t);
                }
            }
        }
    }
}


/// Matches an attribute by name.
pub open spec fn attr_named(name: Seq<char>) -> spec_fn((String, String)) -> bool {
    |a: (String, String)| a.0@ == name
}

/// Matches the attribute that holds a catalogue entry's relationship ID: `r:id` or `id`.
pub open spec fn relationship_id_attr() -> spec_fn((String, String)) -> bool {
    |a: (String, String)| a.0@ == "r:id"@ || a.0@ == "id"@
}

/// Matches a relationship by its ID.
pub open spec fn relationship_with_id(id: Seq<char>) -> spec_fn(Relationship) -> bool {
    |r: Relationship| r.id@ == id
}

/// The value of the first attribute that `p` matches.
pub open spec fn attribute_value(
    attrs: Seq<(String, String)>,
    p: spec_fn((String, String)) -> bool,
) -> Option<Seq<char>> {
    match find_first(attrs, p) {
        Some(a) => Some(a.1@),
        None => None,
    }
}

/// The part a relationship ID resolves to among a part's relationships.
pub open spec fn resolve_relationship(rels: Seq<Relationship>, id: Seq<char>) -> Option<Seq<char>> {
    match find_first(rels, relationship_with_id(id)) {
        Some(r) => match r.resolved_target {
            Some(t) => Some(t@),
            None => None,
        },
        None => None,
    }
}

/// Sets the ID of `key` in an association list with distinct keys: in place
/// when the key is present, else appended.
pub open spec fn upsert(entries: Seq<(Seq<char>, u32)>, key: Seq<char>, id: u32) -> Seq<
    (Seq<char>, u32),
> {
    let k = first_index(entries, key_is(key));
    if k < entries.len() {
        entries.update(k, (key, id))
    } else {
        entries.push((key, id))
    }
}

/// Matches an entry by key.
pub open spec fn key_is(key: Seq<char>) -> spec_fn((Seq<char>, u32)) -> bool {
    |e: (Seq<char>, u32)| e.0 == key
}

/// The part IDs of the first `n` catalogue items, or the relationship ID that
/// did not resolve: an item without a numeric `ID` or without a relationship
/// ID is skipped, and a later item for the same part replaces an earlier one.
pub open spec fn catalog_entries(
    items: Seq<Vec<(String, String)>>,
    rels: Seq<Relationship>,
    n: int,
) -> Result<Seq<(Seq<char>, u32)>, Seq<char>>
    decreases n,
{
    if n <= 0 {
        Ok(Seq::empty())
    } else {
        match catalog_entries(items, rels, n - 1) {
            Err(e) => Err(e),
            Ok(prev) => {
                let attrs = items[n - 1]@;
                match attribute_value(attrs, attr_named("ID"@)) {
                    None => Ok(prev),
                    Some(v) => match spec_parse_u32(v) {
                        None => Ok(prev),
                        Some(id) => match attribute_value(attrs, relationship_id_attr()) {
                            None => Ok(prev),
                            Some(rid) => match resolve_relationship(rels, rid) {
                                Some(path) => Ok(upsert(prev, path, id)),
                                None => Err(rid),
                            },
                        },
                    },
                }
            },
        }
    }
}

/// The views of a list of part-ID entries.
pub open spec fn entry_views(entries: Seq<(String, u32)>) -> Seq<(Seq<char>, u32)> {
    entries.map_values(|e: (String, u32)| (e.0@, e.1))
}

fn attribute_of<'a>(attrs: &'a Vec<(String, String)>, name: &str) -> (res: Option<&'a String>)
    ensures
        match res {
            Some(v) => attribute_value(attrs@, attr_named(name@)) == Some(v@),
            None => attribute_value(attrs@, attr_named(name@)) is None,
        },
{
    let ghost p = attr_named(name@);
    let mut i: usize = 0;
    while i < attrs.len()
        invariant
            i <= attrs@.len(),
            p == attr_named(name@),
            forall|j: int| 0 <= j < i ==> !p(#[trigger] attrs@[j]),
        decreases attrs.len() - i,
    {
        if str_eq(attrs[i].0.as_str(), name) {
            proof {
                lemma_find_first_skip(attrs@, p, i as int);
                assert(p(attrs@.skip(i as int)[0]));
            }
            return Some(&attrs[i].1);
        }
        i = i + 1;
    }
    proof {
        lemma_find_first_index(attrs@, p);
    }
    None
}

fn relationship_id_of<'a>(attrs: &'a Vec<(String, String)>) -> (res: Option<&'a String>)
    ensures
        match res {
            Some(v) => attribute_value(attrs@, relationship_id_attr()) == Some(v@),
            None => attribute_value(attrs@, relationship_id_attr()) is None,
        },
{
    let ghost p = relationship_id_attr();
    let mut i: usize = 0;
    while i < attrs.len()
        invariant
            i <= attrs@.len(),
            p == relationship_id_attr(),
            forall|j: int| 0 <= j < i ==> !p(#[trigger] attrs@[j]),
        decreases attrs.len() - i,
    {
        if str_eq(attrs[i].0.as_str(), "r:id") || str_eq(attrs[i].0.as_str(), "id") {
            proof {
                lemma_find_first_skip(attrs@, p, i as int);
                assert(p(attrs@.skip(i as int)[0]));
            }
            return Some(&attrs[i].1);
        }
        i = i + 1;
    }
    proof {
        lemma_find_first_index(attrs@, p);
    }
    None
}

fn resolve_relationship_exec(rels: &Vec<Relationship>, id: &str) -> (res: Option<String>)
    ensures
        match res {
            Some(t) => resolve_relationship(rels@, id@) == Some(t@),
            None => resolve_relationship(rels@, id@) is None,
        },
{
    let ghost p = relationship_with_id(id@);
    let mut i: usize = 0;
    while i < rels.len()
        invariant
            i <= rels@.len(),
            p == relationship_with_id(id@),
            forall|j: int| 0 <= j < i ==> !p(#[trigger] rels@[j]),
        decreases rels.len() - i,
    {
        if str_eq(rels[i].id.as_str(), id) {
            proof {
                lemma_find_first_skip(rels@, p, i as int);
                assert(rels@.skip(i as int)[0] == rels@[i as int]);
                assert(p(rels@.skip(i as int)[0]));
            }
            return copy_opt_string(&rels[i].resolved_target);
        }
        i = i + 1;
    }
    proof {
        lemma_find_first_index(rels@, p);
    }
    None
}

fn upsert_entry(entries: &mut Vec<(String, u32)>, key: String, id: u32)
    ensures
        entry_views(final(entries)@) == upsert(entry_views(old(entries)@), key@, id),
{
    let ghost before = entry_views(entries@);
    let ghost p = key_is(key@);
    proof {
        lemma_find_first_index(before, p);
    }
    let mut i: usize = 0;
    while i < entries.len()
        invariant
            i <= entries@.len(),
            before == entry_views(entries@),
            entries@ == old(entries)@,
            p == key_is(key@),
            forall|j: int| 0 <= j < i ==> !p(#[trigger] before[j]),
        decreases entries.len() - i,
    {
        assert(before[i as int] == (entries@[i as int].0@, entries@[i as int].1));
        if entries[i].0 == key {
            proof {
                lemma_find_first_skip(before, p, i as int);
                assert(before.skip(i as int)[0] == before[i as int]);
                assert(p(before.skip(i as int)[0]));
                assert(first_index(before.skip(i as int), p) == 0);
                assert(first_index(before, p) == i);
            }
            let ghost kv = key@;
            entries.set(i, (key, id));
            assert(upsert(before, kv, id) == before.update(i as int, (kv, id)));
            assert(entry_views(entries@) =~= before.update(i as int, (kv, id)));
            return;
        }
        i = i + 1;
    }
    proof {
        lemma_find_first_skip(before, p, i as int);
        assert(before.skip(i as int) =~= Seq::<(Seq<char>, u32)>::empty());
    }
    entries.push((key, id));
    assert(entry_views(entries@) =~= before.push((key@, id)));
}

/// The part IDs that a pages or masters catalogue assigns: for each item of
/// `items` (the attributes of the catalogue's `Page` or `Master` elements, in
/// order) with a numeric `ID` and a relationship ID, the part that
/// relationship resolves to among `relationships` (the catalogue part's
/// relationships, empty when it has none). A relationship ID that does not
/// resolve is refused, naming the catalogue part and the ID.
pub fn catalog_part_ids(
    items: &Vec<Vec<(String, String)>>,
    part: &str,
    relationships: &Vec<Relationship>,
) -> (res: Result<Vec<(String, u32)>, VsdxError>)
    ensures
        match catalog_entries(items@, relationships@, items@.len() as int) {
            Ok(entries) => (res matches Ok(v) && entry_views(v@) == entries),
            Err(rid) => (res matches Err(VsdxError::InvalidRelationship { source_part, target })
                && source_part@ == part@ && target@ == rid),
        },
{
    let ghost rels = relationships@;
    let mut ids: Vec<(String, u32)> = Vec::new();
    assert(entry_views(ids@) =~= Seq::<(Seq<char>, u32)>::empty());
    let mut i: usize = 0;
    while i < items.len()
        invariant
            i <= items@.len(),
            rels == relationships@,
            catalog_entries(items@, rels, i as int) == Ok::<Seq<(Seq<char>, u32)>, Seq<char>>(
                entry_views(ids@),
            ),
        decreases items.len() - i,
    {
        let attrs = &items[i];
        match attribute_of(attrs, "ID") {
            None => {},
            Some(v) => match parse_u32(v.as_str()) {
                None => {},
                Some(id) => match relationship_id_of(attrs) {
                    None => {},
                    Some(rid) => match resolve_relationship_exec(relationships, rid.as_str()) {
                        Some(path) => {
                            upsert_entry(&mut ids, path, id);
                        },
                        None => {
                            proof {
                                lemma_catalog_error_stays(items@, rels, i + 1, items@.len() as int);
                            }
                            return Err(
                                VsdxError::InvalidRelationship {
                                    source_part: owned(part),
                                    target: rid.clone(),
                                },
                            );
                        },
                    },
                },
            },
        }
        i = i + 1;
    }
    Ok(ids)
}

proof fn lemma_catalog_error_stays(
    items: Seq<Vec<(String, String)>>,
    rels: Seq<Relationship>,
    m: int,
    n: int,
)
    requires
        0 <= m <= n,
        catalog_entries(items, rels, m) is Err,
    ensures
        catalog_entries(items, rels, n) == catalog_entries(items, rels, m),
    decreases n - m,
{
    if m < n {
        lemma_catalog_error_stays(items, rels, m, n - 1);
    }
}

} // verus!
