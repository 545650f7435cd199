//! Pattern collection for Seeds (B2/S). No cell survives, so nothing here is a still life; every
//! pattern is rebuilt from births each generation.
use vstd::prelude::*;
use super::{Category, Def, DefSpec, def_view};
use crate::plain_rle::plain_body;

verus! {

/// Name, category and RLE of each pattern of the collection.
pub open spec fn spec_defs() -> Seq<DefSpec> {
    seq![
        ("Diagonal Pair"@, Category::Oscillator, "bo$o!"@),
        ("Gap Trio"@, Category::Oscillator, "2obo!"@),
        ("Row of Four"@, Category::Oscillator, "4o!"@),
        ("Sliver"@, Category::Spaceship, "b2o$3bo$o!"@),
    ]
}

pub fn defs() -> (r: Vec<Def>)
    ensures
        r@.map_values(|d: Def| def_view(d)) == spec_defs(),
{
    let mut v: Vec<Def> = Vec::new();
    v.push(Def { name: "Diagonal Pair", category: Category::Oscillator, rle: "bo$o!" });
    v.push(Def { name: "Gap Trio", category: Category::Oscillator, rle: "2obo!" });
    v.push(Def { name: "Row of Four", category: Category::Oscillator, rle: "4o!" });
    v.push(Def { name: "Sliver", category: Category::Spaceship, rle: "b2o$3bo$o!" });
    assert(v@.map_values(|d: Def| def_view(d)) =~= spec_defs());
    v
}


/// Every pattern text of the collection is a plain body, so it reads and
/// makes at least one cell live.
pub proof fn lemma_texts_plain()
    ensures
        forall|i: int| 0 <= i < spec_defs().len() ==> plain_body(#[trigger] spec_defs()[i].2),
{
    reveal_strlit("bo$o!");
    assert(plain_body("bo$o!"@)) by {
        assert("bo$o!"@[1] == 'o');
    }
    reveal_strlit("2obo!");
    assert(plain_body("2obo!"@)) by {
        assert("2obo!"@[1] == 'o');
    }
    reveal_strlit("4o!");
    assert(plain_body("4o!"@)) by {
        assert("4o!"@[1] == 'o');
    }
    reveal_strlit("b2o$3bo$o!");
    assert(plain_body("b2o$3bo$o!"@)) by {
        assert("b2o$3bo$o!"@[2] == 'o');
    }
    let d = spec_defs();
    assert forall|i: int| 0 <= i < d.len() implies plain_body(#[trigger] d[i].2) by {
    }
}

} // verus!
