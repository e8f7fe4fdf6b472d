//! Shape text as plain stories: flattening resolved text tokens to the
//! characters a reader sees.

use vstd::prelude::*;

use crate::edit_model::{PageSnapshot, ShapeSnapshot};
use crate::render_text::{property_value, spec_property_value};
use crate::resolve_model::ResolvedTextToken;
use crate::seqs::{find_last, first_index, lemma_find_first_index, lemma_find_last_take};
use crate::sheet::{sections_same, shape_same, text_same, Section, Shape, Sheet, TextToken};
use crate::snapshot::{derefs, snapshot_shapes, stack_order};
use crate::text::{append, owned, push_char, str_eq};
use crate::tree::{flatten, ids_of, lemma_flatten_step};

verus! {

/// The plain text behind resolved text tokens: literals as they are, a
/// paragraph marker as a line break (but not at the very start), a tab
/// marker as a tab, a field as its cached `Value` when it has one, and
/// character run markers as nothing.
pub open spec fn plain_text_of(tokens: Seq<ResolvedTextToken>) -> Seq<char>
    decreases tokens.len(),
{
    if tokens.len() == 0 {
        Seq::empty()
    } else {
        let before = plain_text_of(tokens.drop_last());
        match tokens.last() {
            ResolvedTextToken::Literal(v) => before + v@,
            ResolvedTextToken::CharacterRun { .. } => before,
            ResolvedTextToken::ParagraphRun { .. } => if before.len() > 0 {
                before.push('\n')
            } else {
                before
            },
            ResolvedTextToken::Tab { .. } => before.push('\t'),
            ResolvedTextToken::Field { properties, .. } => match spec_property_value(
                properties@,
                "Value"@,
            ) {
                Some(v) => before + v,
                None => before,
            },
        }
    }
}

/// The plain text behind resolved text tokens.
pub fn plain_text(tokens: &Vec<ResolvedTextToken>) -> (res: String)
    ensures
        res@ == plain_text_of(tokens@),
{
    let mut output = String::new();
    let mut i: usize = 0;
    while i < tokens.len()
        invariant
            i <= tokens@.len(),
            output@ == plain_text_of(tokens@.take(i as int)),
        decreases tokens.len() - i,
    {
        proof {
            assert(tokens@.take(i + 1).drop_last() =~= tokens@.take(i as int));
            assert(tokens@.take(i + 1).last() == tokens@[i as int]);
        }
        match &tokens[i] {
            ResolvedTextToken::Literal(value) => append(&mut output, value.as_str()),
            ResolvedTextToken::CharacterRun { .. } => {},
            ResolvedTextToken::ParagraphRun { .. } => {
                if !output.as_str().is_empty() {
                    push_char(&mut output, '\n');
                }
            },
            ResolvedTextToken::Tab { .. } => push_char(&mut output, '\t'),
            ResolvedTextToken::Field { properties, .. } => {
                proof {
                    reveal_strlit("Value");
                }
                match property_value(properties, "Value") {
                    Some(value) => append(&mut output, value),
                    None => {},
                }
            },
        }
        i = i + 1;
    }
    assert(tokens@.take(tokens@.len() as int) =~= tokens@);
    output
}

/// The shape, or one nested in it at any depth, has the ID.
pub open spec fn holds_id(id: u32) -> spec_fn(Shape) -> bool {
    |s: Shape| s.id == id || ids_of(flatten(s.shapes@)).contains(id)
}

/// The tokens an edited story becomes: none for empty text, else one literal.
pub open spec fn story_tokens(t: Option<Vec<TextToken>>, text: Seq<char>) -> bool {
    match t {
        Some(v) => if text.len() == 0 {
            v@.len() == 0
        } else {
            v@.len() == 1 && (v@[0] matches TextToken::Literal(l) && l@ == text)
        },
        None => false,
    }
}

/// The attributes, cells and sections of two shapes agree.
pub open spec fn header_same(a: Shape, b: Shape) -> bool {
    &&& a.id == b.id
    &&& a.name == b.name
    &&& a.master == b.master
    &&& a.master_shape == b.master_shape
    &&& a.line_style == b.line_style
    &&& a.fill_style == b.fill_style
    &&& a.text_style == b.text_style
    &&& a.del == b.del
    &&& a.cells@ == b.cells@
    &&& sections_same(a.sections@, b.sections@)
}

/// `new` is the forest `old` with the story of its first shape with the ID,
/// in pre-order, replaced by `text`; everything else is the same.
pub open spec fn text_set_first(old: Seq<Shape>, new: Seq<Shape>, id: u32, text: Seq<char>) -> bool
    decreases old,
{
    let i = first_index(old, holds_id(id));
    &&& new.len() == old.len()
    &&& forall|k: int| 0 <= k < old.len() && k != i ==> shape_same(#[trigger] old[k], new[k])
    &&& 0 <= i < old.len() ==> {
        let o = old[i];
        let n = new[i];
        &&& header_same(o, n)
        &&& if o.id == id {
            &&& story_tokens(n.text, text)
            &&& n.shapes@.len() == o.shapes@.len()
            &&& forall|k: int|
                0 <= k < o.shapes@.len() ==> shape_same(#[trigger] o.shapes@[k], n.shapes@[k])
        } else {
            &&& text_same(o.text, n.text)
            &&& text_set_first(o.shapes@, n.shapes@, id, text)
        }
    }
}

proof fn lemma_sections_same_refl(a: Seq<Section>)
    ensures
        sections_same(a, a),
{
}

/// Every shape is the same as itself.
pub proof fn lemma_shape_same_refl(a: Shape)
    ensures
        shape_same(a, a),
    decreases a,
{
    lemma_sections_same_refl(a.sections@);
    assert forall|i: int| 0 <= i < a.shapes@.len() implies shape_same(
        #[trigger] a.shapes@[i],
        a.shapes@[i],
    ) by {
        assert(decreases_to!(a => a.shapes@[i]));
        lemma_shape_same_refl(a.shapes@[i]);
    }
}

/// A forest holds the ID, at any depth, exactly when one of its shapes does
/// or has it nested.
proof fn lemma_holds_id_flatten(shapes: Seq<Shape>, id: u32)
    ensures
        ids_of(flatten(shapes)).contains(id) <==> first_index(shapes, holds_id(id)) < shapes.len(),
    decreases shapes.len(),
{
    lemma_find_first_index(shapes, holds_id(id));
    if shapes.len() == 0 {
        assert(flatten(shapes) =~= Seq::<Shape>::empty());
    } else {
        lemma_flatten_step(shapes, 0);
        assert(shapes.skip(0) =~= shapes);
        let rest = shapes.skip(1);
        lemma_holds_id_flatten(rest, id);
        lemma_find_first_index(rest, holds_id(id));
        if ids_of(flatten(rest)).contains(id) {
            let j = first_index(rest, holds_id(id));
            assert(shapes[j + 1] == rest[j]);
        }
        if first_index(shapes, holds_id(id)) > 0 && first_index(shapes, holds_id(id)) < shapes.len() {
            let j = first_index(shapes, holds_id(id));
            assert(rest[j - 1] == shapes[j]);
            if !ids_of(flatten(rest)).contains(id) {
                assert(!holds_id(id)(rest[j - 1]));
            }
        }
        if !ids_of(flatten(rest)).contains(id) && !holds_id(id)(shapes[0]) {
            assert forall|j: int| 0 <= j < shapes.len() implies !holds_id(id)(#[trigger] shapes[j]) by {
                if j > 0 {
                    assert(shapes[j] == rest[j - 1]);
                }
            }
        }
    }
}

fn story_tokens_for(text: &str) -> (res: Vec<TextToken>)
    ensures
        story_tokens(Some(res), text@),
{
    let mut tokens: Vec<TextToken> = Vec::new();
    if !text.is_empty() {
        tokens.push(TextToken::Literal(owned(text)));
    }
    tokens
}

/// Replaces the story of the first shape with the ID, in pre-order; says
/// whether there was one.
fn set_text_first(shapes: &mut Vec<Shape>, id: u32, text: &str) -> (found: bool)
    ensures
        text_set_first(old(shapes)@, final(shapes)@, id, text@),
        found == ids_of(flatten(old(shapes)@)).contains(id),
    decreases old(shapes)@,
{
    let ghost start = shapes@;
    let ghost p = holds_id(id);
    proof {
        lemma_find_first_index(start, p);
        lemma_holds_id_flatten(start, id);
    }
    let mut i: usize = 0;
    while i < shapes.len()
        invariant
            i <= start.len(),
            start == old(shapes)@,
            shapes@.len() == start.len(),
            p == holds_id(id),
            forall|j: int| 0 <= j < i ==> !p(#[trigger] start[j]),
            forall|j: int| 0 <= j < i ==> shape_same(#[trigger] start[j], shapes@[j]),
            forall|j: int| i <= j < start.len() ==> #[trigger] shapes@[j] == start[j],
        decreases start.len() - i,
    {
        let ghost before = shapes@;
        let mut shape = shapes.remove(i);
        assert(shape == start[i as int]);
        if shape.id == id {
            proof {
                lemma_shape_same_refl(shape);
                lemma_sections_same_refl(shape.sections@);
            }
            shape.text = Some(story_tokens_for(text));
            shapes.insert(i, shape);
            proof {
                lemma_find_first_index(start, p);
                lemma_holds_id_flatten(start, id);
                assert(p(start[i as int]));
                assert(first_index(start, p) == i);
                assert forall|k: int| 0 <= k < start.len() && k != i implies shape_same(
                    #[trigger] start[k],
                    shapes@[k],
                ) by {
                    if k > i {
                        lemma_shape_same_refl(start[k]);
                    }
                }
            }
            return true;
        }
        proof {
            assert(decreases_to!(start => start[i as int]));
            assert(decreases_to!(start[i as int] => start[i as int].shapes));
            assert(decreases_to!(start[i as int].shapes => start[i as int].shapes@));
            lemma_holds_id_flatten(shape.shapes@, id);
            lemma_sections_same_refl(shape.sections@);
        }
        let ghost inner = shape.shapes@;
        let nested = set_text_first(&mut shape.shapes, id, text);
        shapes.insert(i, shape);
        if nested {
            proof {
                lemma_find_first_index(start, p);
                lemma_holds_id_flatten(start, id);
                assert(p(start[i as int]));
                assert(first_index(start, p) == i);
                assert forall|k: int| 0 <= k < start.len() && k != i implies shape_same(
                    #[trigger] start[k],
                    shapes@[k],
                ) by {
                    if k > i {
                        lemma_shape_same_refl(start[k]);
                    }
                }
            }
            return true;
        }
        proof {
            assert(!p(start[i as int]));
            lemma_find_first_index(inner, holds_id(id));
            assert(shape_same(start[i as int], shapes@[i as int]));
        }
        i = i + 1;
    }
    proof {
        assert(first_index(start, p) == start.len());
        assert forall|k: int| 0 <= k < start.len() implies shape_same(#[trigger] start[k], shapes@[k]) by {
        }
    }
    false
}

/// Matches an edited story by the session ID of its shape.
pub open spec fn story_for(id: Seq<char>) -> spec_fn((String, String)) -> bool {
    |e: (String, String)| e.0@ == id
}

/// The edited text of a session shape, as a map filled in list order finds
/// it: the last entry for the ID.
pub open spec fn edited_text(texts: Seq<(String, String)>, id: Seq<char>) -> Option<Seq<char>> {
    match find_last(texts, story_for(id)) {
        Some(e) => Some(e.1@),
        None => None,
    }
}

/// `steps` records projecting the edited stories onto a page's shapes, one
/// visited snapshot shape at a time: a shape with an edited story sets the
/// story of the first page shape with its source ID; others change nothing.
pub open spec fn stories_projected(
    order: Seq<ShapeSnapshot>,
    texts: Seq<(String, String)>,
    steps: Seq<Seq<Shape>>,
) -> bool {
    &&& steps.len() == order.len() + 1
    &&& forall|k: int|
        #![trigger order[k]]
        0 <= k < order.len() ==> match edited_text(texts, order[k].id@) {
            Some(t) => text_set_first(steps[k], steps[k + 1], order[k].source_id, t),
            None => steps[k + 1] == steps[k],
        }
}

fn edited_text_of<'a>(texts: &'a Vec<(String, String)>, id: &str) -> (res: Option<&'a str>)
    ensures
        match res {
            Some(t) => edited_text(texts@, id@) == Some(t@),
            None => edited_text(texts@, id@) is None,
        },
{
    let ghost p = story_for(id@);
    let mut i: usize = texts.len();
    while i > 0
        invariant
            i <= texts@.len(),
            p == story_for(id@),
            forall|j: int| i <= j < texts@.len() ==> !p(#[trigger] texts@[j]),
        decreases i,
    {
        if str_eq(texts[i - 1].0.as_str(), id) {
            proof {
                lemma_find_last_take(texts@, p, i as int);
                assert(texts@.take(i as int).last() == texts@[i - 1]);
            }
            return Some(texts[i - 1].1.as_str());
        }
        i = i - 1;
    }
    proof {
        lemma_find_last_take(texts@, p, 0);
    }
    None
}

/// Projects edited stories onto a page: visiting the snapshot shapes in
/// stack-walk order, each one with an edited story (keyed by session ID)
/// replaces the story of the first page shape with its source ID by that
/// text, collapsed to one literal (or to nothing when empty). The rest of
/// the page is untouched.
pub fn materialize_page_text(sheet: &mut Sheet, page: &PageSnapshot, texts: &Vec<(String, String)>)
    ensures
        exists|steps: Seq<Seq<Shape>>|
            #[trigger] stories_projected(stack_order(page.shapes@), texts@, steps) && steps[0]
                == old(sheet).shapes@ && steps.last() == final(sheet).shapes@,
        final(sheet).id == old(sheet).id,
        final(sheet).cells@ == old(sheet).cells@,
        final(sheet).sections@ == old(sheet).sections@,
        final(sheet).connects@ == old(sheet).connects@,
        final(sheet).other_attrs@ == old(sheet).other_attrs@,
{
    let order = snapshot_shapes(page);
    let ghost visit = derefs(order@);
    let ghost mut steps: Seq<Seq<Shape>> = seq![sheet.shapes@];
    let ghost start = *sheet;
    let mut k: usize = 0;
    while k < order.len()
        invariant
            k <= order@.len(),
            visit == derefs(order@),
            visit == stack_order(page.shapes@),
            steps.len() == k + 1,
            steps[0] == start.shapes@,
            steps[k as int] == sheet.shapes@,
            forall|j: int|
                #![trigger visit[j]]
                0 <= j < k ==> match edited_text(texts@, visit[j].id@) {
                    Some(t) => text_set_first(steps[j], steps[j + 1], visit[j].source_id, t),
                    None => steps[j + 1] == steps[j],
                },
            sheet.id == start.id,
            sheet.cells@ == start.cells@,
            sheet.sections@ == start.sections@,
            sheet.connects@ == start.connects@,
            sheet.other_attrs@ == start.other_attrs@,
        decreases order.len() - k,
    {
        let shape: &ShapeSnapshot = order[k];
        assert(visit[k as int] == *shape);
        let ghost old_steps = steps;
        match edited_text_of(texts, shape.id.as_str()) {
            Some(text) => {
                set_text_first(&mut sheet.shapes, shape.source_id, text);
            },
            None => {},
        }
        proof {
            steps = steps.push(sheet.shapes@);
            assert forall|j: int|
                #![trigger visit[j]]
                0 <= j < k + 1 implies match edited_text(texts@, visit[j].id@) {
                Some(t) => text_set_first(steps[j], steps[j + 1], visit[j].source_id, t),
                None => steps[j + 1] == steps[j],
            } by {
                assert(steps[j] == old_steps[j] || j == k);
                if j < k {
                    assert(steps[j + 1] == old_steps[j + 1]);
                }
            }
        }
        k = k + 1;
    }
    assert(stories_projected(stack_order(page.shapes@), texts@, steps));
}

/// The IDs of a shape and of every shape nested in it.
pub open spec fn tree_ids(s: Shape) -> Set<u32> {
    set![s.id].union(ids_of(flatten(s.shapes@)))
}

/// Two forests whose shapes, position by position, have the same subtree
/// IDs have the same IDs.
proof fn lemma_forest_ids_from_trees(a: Seq<Shape>, b: Seq<Shape>)
    requires
        a.len() == b.len(),
        forall|k: int| 0 <= k < a.len() ==> tree_ids(#[trigger] a[k]) == tree_ids(b[k]),
    ensures
        ids_of(flatten(a)) == ids_of(flatten(b)),
    decreases a.len(),
{
    if a.len() == 0 {
        assert(flatten(a) =~= Seq::<Shape>::empty());
        assert(flatten(b) =~= Seq::<Shape>::empty());
    } else {
        lemma_flatten_step(a, 0);
        lemma_flatten_step(b, 0);
        assert(a.skip(0) =~= a);
        assert(b.skip(0) =~= b);
        let ra = a.skip(1);
        let rb = b.skip(1);
        assert forall|k: int| 0 <= k < ra.len() implies tree_ids(#[trigger] ra[k]) == tree_ids(rb[k]) by {
            assert(ra[k] == a[k + 1] && rb[k] == b[k + 1]);
        }
        lemma_forest_ids_from_trees(ra, rb);
        assert(tree_ids(a[0]) == tree_ids(b[0]));
        assert(ids_of(flatten(a)) =~= tree_ids(a[0]).union(ids_of(flatten(ra))));
        assert(ids_of(flatten(b)) =~= tree_ids(b[0]).union(ids_of(flatten(rb))));
    }
}

/// The same shape has the same subtree IDs.
proof fn lemma_same_tree_ids(x: Shape, y: Shape)
    requires
        shape_same(x, y),
    ensures
        tree_ids(x) == tree_ids(y),
    decreases x,
{
    assert forall|k: int| 0 <= k < x.shapes@.len() implies tree_ids(#[trigger] x.shapes@[k]) == tree_ids(
        y.shapes@[k],
    ) by {
        assert(decreases_to!(x => x.shapes@[k]));
        lemma_same_tree_ids(x.shapes@[k], y.shapes@[k]);
    }
    lemma_forest_ids_from_trees(x.shapes@, y.shapes@);
}

/// Setting a story keeps every shape ID of the forest.
proof fn lemma_text_set_keeps_ids(old: Seq<Shape>, new: Seq<Shape>, id: u32, text: Seq<char>)
    requires
        text_set_first(old, new, id, text),
    ensures
        ids_of(flatten(new)) == ids_of(flatten(old)),
    decreases old,
{
    let i = first_index(old, holds_id(id));
    assert forall|k: int| 0 <= k < old.len() implies tree_ids(#[trigger] old[k]) == tree_ids(new[k]) by {
        if k != i {
            lemma_same_tree_ids(old[k], new[k]);
        } else {
            let o = old[k];
            let n = new[k];
            if o.id == id {
                assert forall|t: int| 0 <= t < o.shapes@.len() implies tree_ids(#[trigger] o.shapes@[t])
                    == tree_ids(n.shapes@[t]) by {
                    lemma_same_tree_ids(o.shapes@[t], n.shapes@[t]);
                }
                lemma_forest_ids_from_trees(o.shapes@, n.shapes@);
            } else {
                assert(decreases_to!(old => old[k]));
                assert(decreases_to!(old[k] => old[k].shapes));
                assert(decreases_to!(old[k].shapes => old[k].shapes@));
                lemma_text_set_keeps_ids(o.shapes@, n.shapes@, id, text);
            }
        }
    }
    lemma_forest_ids_from_trees(old, new);
}

/// Projecting edited stories onto a page changes no shape's ID: the page
/// has the same shape IDs, at every depth, after as before.
pub proof fn lemma_stories_keep_shape_ids(
    order: Seq<ShapeSnapshot>,
    texts: Seq<(String, String)>,
    steps: Seq<Seq<Shape>>,
    k: int,
)
    requires
        stories_projected(order, texts, steps),
        0 <= k <= order.len(),
    ensures
        ids_of(flatten(steps[k])) == ids_of(flatten(steps[0])),
    decreases k,
{
    if k > 0 {
        lemma_stories_keep_shape_ids(order, texts, steps, k - 1);
        let j = k - 1;
        assert(0 <= j < order.len());
        match edited_text(texts, order[j].id@) {
            Some(t) => {
                lemma_text_set_keeps_ids(steps[j], steps[j + 1], order[j].source_id, t);
            },
            None => {},
        }
    }
}

} // verus!
