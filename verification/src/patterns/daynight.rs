//! Pattern collection for Day & Night (B3678/S34678).
use vstd::prelude::*;
use super::{Category, Def, DefSpec, def_view};
use crate::plain_rle::plain_body;

verus! {

/// Name, category and RLE of each pattern of the collection.
pub open spec fn spec_defs() -> Seq<DefSpec> {
    seq![
        ("Block"@, Category::StillLife, "2o$2o!"@),
        ("Hex Ring"@, Category::StillLife, "bo$o2bo$o2bo$bo!"@),
        ("S-tetromino"@, Category::Oscillator, "b2o$2o!"@),
        ("P-pentomino"@, Category::Oscillator, "3o$2o!"@),
    ]
}

pub fn defs() -> (r: Vec<Def>)
    ensures
        r@.map_values(|d: Def| def_view(d)) == spec_defs(),
{
    let mut v: Vec<Def> = Vec::new();
    v.push(Def { name: "Block", category: Category::StillLife, rle: "2o$2o!" });
    v.push(Def { name: "Hex Ring", category: Category::StillLife, rle: "bo$o2bo$o2bo$bo!" });
    v.push(Def { name: "S-tetromino", category: Category::Oscillator, rle: "b2o$2o!" });
    v.push(Def { name: "P-pentomino", category: Category::Oscillator, rle: "3o$2o!" });
    assert(v@.map_values(|d: Def| def_view(d)) =~= spec_defs());
    v
}


/// Every pattern text of the collection is a plain body, so it reads and
/// makes at least one cell live.
pub proof fn lemma_texts_plain()
    ensures
        forall|i: int| 0 <= i < spec_defs().len() ==> plain_body(#[trigger] spec_defs()[i].2),
{
    reveal_strlit("2o$2o!");
    assert(plain_body("2o$2o!"@)) by {
        assert("2o$2o!"@[1] == 'o');
    }
    reveal_strlit("bo$o2bo$o2bo$bo!");
    assert(plain_body("bo$o2bo$o2bo$bo!"@)) by {
        assert("bo$o2bo$o2bo$bo!"@[1] == 'o');
    }
    reveal_strlit("b2o$2o!");
    assert(plain_body("b2o$2o!"@)) by {
        assert("b2o$2o!"@[2] == 'o');
    }
    reveal_strlit("3o$2o!");
    assert(plain_body("3o$2o!"@)) by {
        assert("3o$2o!"@[1] == 'o');
    }
    let d = spec_defs();
    assert forall|i: int| 0 <= i < d.len() implies plain_body(#[trigger] d[i].2) by {
    }
}

} // verus!
