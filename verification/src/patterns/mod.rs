//! Pattern collections, one per ruleset: a pattern only appears in the library
//! while a rule it is known to work under is active.
use vstd::prelude::*;
use crate::plain_rle::plain_body;
use crate::rle::{cells, parse_spec};
use crate::rules::{RuleSet, lemma_tables_text_round_trip, rule_from_chars, rule_text_spec, table_digits, tables_text};
use crate::text::chars_of;

pub mod daynight;
pub mod highlife;
pub mod life;
pub mod seeds;

verus! {

broadcast use vstd::string::group_string_axioms;

#[derive(Clone, Copy, PartialEq, Eq, Debug, Structural)]
pub enum Category {
    StillLife,
    Oscillator,
    Spaceship,
    Gun,
    Methuselah,
    Replicator,
    /// Pasted from the clipboard (e.g. copied out of Golly); never in a built-in collection.
    Imported,
}

impl Category {
    /// Every category, in display order.
    pub fn all() -> (r: [Category; 7])
        ensures
            r@ == seq![
                Category::StillLife,
                Category::Oscillator,
                Category::Spaceship,
                Category::Gun,
                Category::Methuselah,
                Category::Replicator,
                Category::Imported,
            ],
    {
        let r = [
            Category::StillLife,
            Category::Oscillator,
            Category::Spaceship,
            Category::Gun,
            Category::Methuselah,
            Category::Replicator,
            Category::Imported,
        ];
        assert(r@ =~= seq![
            Category::StillLife,
            Category::Oscillator,
            Category::Spaceship,
            Category::Gun,
            Category::Methuselah,
            Category::Replicator,
            Category::Imported,
        ]);
        r
    }

    /// The heading shown for the category in the pattern library.
    pub fn label(&self) -> (s: &'static str)
        ensures
            s@ == category_label(*self),
    {
        match self {
            Category::StillLife => "Still Lifes",
            Category::Oscillator => "Oscillators",
            Category::Spaceship => "Spaceships",
            Category::Gun => "Guns",
            Category::Methuselah => "Methuselahs",
            Category::Replicator => "Replicators",
            Category::Imported => "Imported (clipboard)",
        }
    }
}

pub open spec fn category_label(c: Category) -> Seq<char> {
    match c {
        Category::StillLife => "Still Lifes"@,
        Category::Oscillator => "Oscillators"@,
        Category::Spaceship => "Spaceships"@,
        Category::Gun => "Guns"@,
        Category::Methuselah => "Methuselahs"@,
        Category::Replicator => "Replicators"@,
        Category::Imported => "Imported (clipboard)"@,
    }
}

pub struct Pattern {
    pub name: String,
    pub category: Category,
    pub cells: Vec<(i32, i32)>,
}

/// A built-in pattern: its name, category and RLE text.
pub struct Def {
    pub name: &'static str,
    pub category: Category,
    pub rle: &'static str,
}

/// Name, category and RLE text of a built-in pattern.
pub type DefSpec = (Seq<char>, Category, Seq<char>);

pub open spec fn def_view(d: Def) -> DefSpec {
    (d.name@, d.category, d.rle@)
}

/// A built-in collection: its name, the Golly rule text it is shown under,
/// and its patterns.
pub struct Collection {
    pub name: &'static str,
    /// Golly-style rule string; the collection is shown while this rule is active.
    pub rule: &'static str,
    pub defs: Vec<Def>,
}

/// Name, rule text and patterns of each built-in collection, in order.
pub open spec fn spec_collections() -> Seq<(Seq<char>, Seq<char>, Seq<DefSpec>)> {
    seq![
        ("Conway's Life"@, "B3/S23"@, life::spec_defs()),
        ("HighLife"@, "B36/S23"@, highlife::spec_defs()),
        ("Seeds"@, "B2/S"@, seeds::spec_defs()),
        ("Day & Night"@, "B3678/S34678"@, daynight::spec_defs()),
    ]
}

/// The built-in collections.
pub fn collections() -> (r: Vec<Collection>)
    ensures
        r@.len() == spec_collections().len(),
        forall|k: int|
            0 <= k < r@.len() ==> (#[trigger] r@[k]).name@ == spec_collections()[k].0 && r@[k].rule@
                == spec_collections()[k].1 && r@[k].defs@.map_values(|d: Def| def_view(d))
                == spec_collections()[k].2,
{
    let mut r: Vec<Collection> = Vec::new();
    r.push(Collection { name: "Conway's Life", rule: "B3/S23", defs: life::defs() });
    r.push(Collection { name: "HighLife", rule: "B36/S23", defs: highlife::defs() });
    r.push(Collection { name: "Seeds", rule: "B2/S", defs: seeds::defs() });
    r.push(Collection { name: "Day & Night", rule: "B3678/S34678", defs: daynight::defs() });
    r
}

/// `rule` is the rule that the rule text `text` reads as.
pub open spec fn rule_text_is(text: Seq<char>, rule: RuleSet) -> bool {
    rule_text_spec(text) == Ok::<(Seq<bool>, Seq<bool>), Seq<char>>((rule.birth@, rule.survive@))
}

/// Index of the first built-in collection at or after `k` whose rule text
/// reads as `rule`.
pub open spec fn collection_from(rule: RuleSet, k: nat) -> Option<nat>
    decreases spec_collections().len() - k,
{
    if k >= spec_collections().len() {
        None
    } else if rule_text_is(spec_collections()[k as int].1, rule) {
        Some(k)
    } else {
        collection_from(rule, k + 1)
    }
}

/// Index of the built-in collection for `rule`, if there is one.
pub open spec fn collection_index(rule: RuleSet) -> Option<nat> {
    collection_from(rule, 0)
}

pub proof fn lemma_collection_from(rule: RuleSet, k: nat)
    ensures
        match collection_from(rule, k) {
            Some(j) => k <= j < spec_collections().len() && rule_text_is(
                spec_collections()[j as int].1,
                rule,
            ),
            None => true,
        },
    decreases spec_collections().len() - k,
{
    if k < spec_collections().len() && !rule_text_is(spec_collections()[k as int].1, rule) {
        lemma_collection_from(rule, k + 1);
    }
}

/// Cells of RLE text; none when it does not read.
pub open spec fn rle_cells(text: Seq<char>) -> Seq<(i32, i32)> {
    match parse_spec(text) {
        Ok(st) => st.cells,
        Err(_) => Seq::empty(),
    }
}

/// Index into `collections()` of the collection for `rule`.
fn collection_for(rule: &RuleSet) -> (k: Option<usize>)
    ensures
        match (k, collection_index(*rule)) {
            (Some(i), Some(j)) => i == j,
            (None, None) => true,
            _ => false,
        },
{
    let cs = collections();
    let mut k: usize = 0;
    while k < cs.len()
        invariant
            k <= cs@.len() == spec_collections().len(),
            forall|j: int|
                0 <= j < cs@.len() ==> (#[trigger] cs@[j]).rule@ == spec_collections()[j].1,
            collection_index(*rule) == collection_from(*rule, k as nat),
        decreases cs.len() - k,
    {
        let text = chars_of(cs[k].rule);
        let parsed = rule_from_chars(&text, 0, text.len());
        assert(text@.subrange(0, text.len() as int) =~= spec_collections()[k as int].1);
        match parsed {
            Ok(r) => {
                if r == *rule {
                    return Some(k);
                }
            },
            Err(_) => {},
        }
        k += 1;
    }
    None
}

/// The built-in patterns for `rule` — empty when the rule has no collection.
pub fn library_for(rule: &RuleSet) -> (lib: Vec<Pattern>)
    ensures
        match collection_index(*rule) {
            None => lib@.len() == 0,
            Some(k) => {
                let defs = spec_collections()[k as int].2;
                &&& lib@.len() == defs.len()
                &&& forall|i: int|
                    0 <= i < defs.len() ==> (#[trigger] lib@[i]).name@ == defs[i].0
                        && lib@[i].category == defs[i].1 && lib@[i].cells@ == rle_cells(
                        defs[i].2,
                    ) && lib@[i].cells@.len() > 0
            },
        },
{
    let mut lib: Vec<Pattern> = Vec::new();
    match collection_for(rule) {
        None => lib,
        Some(k) => {
            proof {
                lemma_collection_from(*rule, 0);
                lemma_collection_texts_read(k as int);
            }
            let cs = collections();
            let defs = &cs[k].defs;
            let ghost spec = spec_collections()[k as int].2;
            assert(defs@.map_values(|d: Def| def_view(d)) == spec);
            let mut i: usize = 0;
            while i < defs.len()
                invariant
                    i <= defs@.len() == spec.len(),
                    k < spec_collections().len(),
                    spec == spec_collections()[k as int].2,
                    defs@.map_values(|d: Def| def_view(d)) == spec,
                    lib@.len() == i,
                    forall|j: int|
                        0 <= j < i ==> (#[trigger] lib@[j]).name@ == spec[j].0 && lib@[j].category
                            == spec[j].1 && lib@[j].cells@ == rle_cells(spec[j].2)
                            && lib@[j].cells@.len() > 0,
                decreases defs.len() - i,
            {
                let d = &defs[i];
                assert(def_view(defs@[i as int]) == spec[i as int]);
                proof {
                    lemma_collection_texts_read(k as int);
                    assert(reads_with_cells(spec[i as int].2));
                    assert(d.rle@ == spec[i as int].2);
                }
                lib.push(
                    Pattern { name: String::from_str(d.name), category: d.category, cells: cells(d.rle) },
                );
                i += 1;
            }
            lib
        },
    }
}

/// Name of the built-in collection for `rule`, if there is one.
pub fn collection_name(rule: &RuleSet) -> (name: Option<&'static str>)
    ensures
        match (name, collection_index(*rule)) {
            (Some(n), Some(k)) => n@ == spec_collections()[k as int].0,
            (None, None) => true,
            _ => false,
        },
{
    match collection_for(rule) {
        Some(k) => {
            proof {
                lemma_collection_from(*rule, 0);
                lemma_collection_texts_read(k as int);
            }
            let cs = collections();
            Some(cs[k].name)
        },
        None => None,
    }
}

/// A cell rotated `turns` quarter turns, then mirrored horizontally when
/// `flip_x` holds.
pub open spec fn transform_cell(c: (i32, i32), turns: u8, flip_x: bool) -> (int, int) {
    let (x, y) = (c.0 as int, c.1 as int);
    let (x, y) = if turns % 4 == 0 {
        (x, y)
    } else if turns % 4 == 1 {
        (y, -x)
    } else if turns % 4 == 2 {
        (-x, -y)
    } else {
        (-y, x)
    };
    (if flip_x {
        -x
    } else {
        x
    }, y)
}

/// `cells` rotated `turns` quarter turns, then mirrored horizontally when
/// `flip_x` holds.
pub fn transform_cells(cells: &[(i32, i32)], turns: u8, flip_x: bool) -> (r: Vec<(i32, i32)>)
    requires
        forall|i: int| 0 <= i < cells@.len() ==> cells@[i].0 > i32::MIN && cells@[i].1 > i32::MIN,
    ensures
        r@.len() == cells@.len(),
        forall|i: int|
            0 <= i < cells@.len() ==> (#[trigger] r@[i]).0 == transform_cell(cells@[i], turns, flip_x).0
                && r@[i].1 == transform_cell(cells@[i], turns, flip_x).1,
{
    let turns = turns % 4;
    let mut r: Vec<(i32, i32)> = Vec::new();
    let mut i: usize = 0;
    while i < cells.len()
        invariant
            i <= cells@.len(),
            turns < 4,
            forall|j: int| 0 <= j < cells@.len() ==> cells@[j].0 > i32::MIN && cells@[j].1 > i32::MIN,
            r@.len() == i,
            forall|j: int|
                0 <= j < i ==> (#[trigger] r@[j]).0 == transform_cell(cells@[j], turns, flip_x).0
                    && r@[j].1 == transform_cell(cells@[j], turns, flip_x).1,
        decreases cells.len() - i,
    {
        let (x, y) = cells[i];
        let (x, y) = if turns == 0 {
            (x, y)
        } else if turns == 1 {
            (y, -x)
        } else if turns == 2 {
            (-x, -y)
        } else {
            (-y, x)
        };
        let x = if flip_x {
            -x
        } else {
            x
        };
        r.push((x, y));
        i += 1;
    }
    r
}


/// `transform_cell`'s result as a cell again.
pub open spec fn as_cell(p: (int, int)) -> (i32, i32) {
    (p.0 as i32, p.1 as i32)
}

/// Four quarter turns bring every cell back, and so does mirroring twice;
/// the turn count only matters modulo four.
pub proof fn lemma_turns_and_flips(c: (i32, i32), turns: u8)
    requires
        c.0 > i32::MIN,
        c.1 > i32::MIN,
    ensures
        as_cell(
            transform_cell(
                as_cell(transform_cell(as_cell(transform_cell(as_cell(transform_cell(c, 1, false)), 1, false)), 1, false)),
                1,
                false,
            ),
        ) == c,
        as_cell(transform_cell(as_cell(transform_cell(c, 0, true)), 0, true)) == c,
        transform_cell(c, turns, false) == transform_cell(c, turns % 4, false),
{
}

/// Each built-in collection is shown under a rule text that reads as a
/// rule, no two of them under the same rule, and each holds at least one
/// pattern.
pub proof fn lemma_collections_keyed()
    ensures
        forall|k: int|
            0 <= k < spec_collections().len() ==> #[trigger] rule_text_spec(spec_collections()[k].1) is Ok,
        forall|k: int, m: int|
            0 <= k < m < spec_collections().len() ==> #[trigger] rule_text_spec(spec_collections()[k].1)
                != #[trigger] rule_text_spec(spec_collections()[m].1),
        forall|k: int| 0 <= k < spec_collections().len() ==> (#[trigger] spec_collections()[k]).2.len() > 0,
{
    reveal_with_fuel(table_digits, 10);
    reveal_strlit("B");
    reveal_strlit("/S");
    reveal_strlit("B3/S23");
    reveal_strlit("B36/S23");
    reveal_strlit("B2/S");
    reveal_strlit("B3678/S34678");
    let t3 = seq![false, false, false, true, false, false, false, false, false];
    let t23 = seq![false, false, true, true, false, false, false, false, false];
    let t36 = seq![false, false, false, true, false, false, true, false, false];
    let t2 = seq![false, false, true, false, false, false, false, false, false];
    let t0 = seq![false, false, false, false, false, false, false, false, false];
    let t3678 = seq![false, false, false, true, false, false, true, true, true];
    let t34678 = seq![false, false, false, true, true, false, true, true, true];
    assert(tables_text(t3, t23) =~= "B3/S23"@);
    assert(tables_text(t36, t23) =~= "B36/S23"@);
    assert(tables_text(t2, t0) =~= "B2/S"@);
    assert(tables_text(t3678, t34678) =~= "B3678/S34678"@);
    lemma_tables_text_round_trip(t3, t23);
    lemma_tables_text_round_trip(t36, t23);
    lemma_tables_text_round_trip(t2, t0);
    lemma_tables_text_round_trip(t3678, t34678);
    assert(t3[6] != t36[6]);
    assert(t3[2] != t2[2]);
    assert(t3[6] != t3678[6]);
    assert(t36[2] != t2[2]);
    assert(t36[7] != t3678[7]);
    assert(t2[2] != t3678[2]);
    let cs = spec_collections();
    assert(cs[0].2.len() > 0 && cs[1].2.len() > 0 && cs[2].2.len() > 0 && cs[3].2.len() > 0);
}


/// Every built-in pattern of a collection is outside the `Imported` category.
proof fn lemma_no_imported(defs: Seq<DefSpec>)
    requires
        defs == life::spec_defs() || defs == highlife::spec_defs() || defs == seeds::spec_defs()
            || defs == daynight::spec_defs(),
    ensures
        forall|i: int| 0 <= i < defs.len() ==> (#[trigger] defs[i]).1 != Category::Imported,
{
    assert forall|i: int| 0 <= i < defs.len() implies (#[trigger] defs[i]).1 != Category::Imported by {
        if defs == life::spec_defs() {
            assert(life::spec_defs()[i].1 != Category::Imported);
        }
    }
}

/// A rule's library holds patterns exactly when the rule has a collection;
/// none of them is in the `Imported` category, and each one has live cells:
/// `library_for` is empty exactly when `collection_name` is `None`.
pub proof fn lemma_library_shape(rule: RuleSet)
    ensures
        match collection_index(rule) {
            Some(k) => {
                let defs = spec_collections()[k as int].2;
                &&& k < spec_collections().len()
                &&& defs.len() > 0
                &&& forall|i: int|
                    0 <= i < defs.len() ==> (#[trigger] defs[i]).1 != Category::Imported
                        && rle_cells(defs[i].2).len() > 0
            },
            None => true,
        },
{
    lemma_collection_from(rule, 0);
    lemma_collections_keyed();
    if let Some(k) = collection_index(rule) {
        let cs = spec_collections();
        assert(cs[k as int].2.len() > 0);
        lemma_no_imported(cs[k as int].2);
        lemma_collection_texts_read(k as int);
        let defs = cs[k as int].2;
        assert forall|i: int| 0 <= i < defs.len() implies rle_cells(
            (#[trigger] defs[i]).2,
        ).len() > 0 by {
            assert(reads_with_cells(defs[i].2));
        }
    }
}


/// `text` reads as a pattern with at least one live cell.
pub open spec fn reads_with_cells(text: Seq<char>) -> bool {
    parse_spec(text) matches Ok(st) && st.cells.len() > 0
}

/// Every pattern text of every built-in collection reads, and makes at
/// least one cell live.
pub proof fn lemma_collection_texts_read(k: int)
    requires
        0 <= k < spec_collections().len(),
    ensures
        forall|i: int|
            0 <= i < spec_collections()[k].2.len() ==> #[trigger] reads_with_cells(
                spec_collections()[k].2[i].2,
            ),
{
    life::lemma_texts_plain();
    highlife::lemma_texts_plain();
    seeds::lemma_texts_plain();
    daynight::lemma_texts_plain();
    let defs = spec_collections()[k].2;
    assert forall|i: int| 0 <= i < defs.len() implies #[trigger] reads_with_cells(defs[i].2) by {
        assert(plain_body(defs[i].2));
        crate::plain_rle::lemma_plain_body_parses(defs[i].2);
    }
}

} // verus!
