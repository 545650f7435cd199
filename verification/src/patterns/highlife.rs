//! Pattern collection for HighLife (B36/S23), including its replicator.
use vstd::prelude::*;
use super::{Category, Def, DefSpec, def_view};
use crate::plain_rle::plain_body;

verus! {

/// Name, category and RLE of each pattern of the collection.
pub open spec fn spec_defs() -> Seq<DefSpec> {
    seq![
        ("Block"@, Category::StillLife, "2o$2o!"@),
        ("Beehive"@, Category::StillLife, "b2ob$o2bo$b2ob!"@),
        ("Blinker"@, Category::Oscillator, "3o!"@),
        ("Toad"@, Category::Oscillator, "b3o$3o!"@),
        ("Glider"@, Category::Spaceship, "bo$2bo$3o!"@),
        ("Lightweight Spaceship"@, Category::Spaceship, "bo2bo$o$o3bo$4o!"@),
        ("Replicator"@, Category::Replicator, "2b3o$bo2bo$o3bo$o2bo$3o!"@),
    ]
}

pub fn defs() -> (r: Vec<Def>)
    ensures
        r@.map_values(|d: Def| def_view(d)) == spec_defs(),
{
    let mut v: Vec<Def> = Vec::new();
    v.push(Def { name: "Block", category: Category::StillLife, rle: "2o$2o!" });
    v.push(Def { name: "Beehive", category: Category::StillLife, rle: "b2ob$o2bo$b2ob!" });
    v.push(Def { name: "Blinker", category: Category::Oscillator, rle: "3o!" });
    v.push(Def { name: "Toad", category: Category::Oscillator, rle: "b3o$3o!" });
    v.push(Def { name: "Glider", category: Category::Spaceship, rle: "bo$2bo$3o!" });
    v.push(Def { name: "Lightweight Spaceship", category: Category::Spaceship, rle: "bo2bo$o$o3bo$4o!" });
    v.push(Def { name: "Replicator", category: Category::Replicator, rle: "2b3o$bo2bo$o3bo$o2bo$3o!" });
    assert(v@.map_values(|d: Def| def_view(d)) =~= spec_defs());
    v
}


/// Every pattern text of the collection is a plain body, so it reads and
/// makes at least one cell live.
pub proof fn lemma_texts_plain()
    ensures
        forall|i: int| 0 <= i < spec_defs().len() ==> plain_body(#[trigger] spec_defs()[i].2),
{
    reveal_strlit("2o$2o!");
    assert(plain_body("2o$2o!"@)) by {
        assert("2o$2o!"@[1] == 'o');
    }
    reveal_strlit("b2ob$o2bo$b2ob!");
    assert(plain_body("b2ob$o2bo$b2ob!"@)) by {
        assert("b2ob$o2bo$b2ob!"@[2] == 'o');
    }
    reveal_strlit("3o!");
    assert(plain_body("3o!"@)) by {
        assert("3o!"@[1] == 'o');
    }
    reveal_strlit("b3o$3o!");
    assert(plain_body("b3o$3o!"@)) by {
        assert("b3o$3o!"@[2] == 'o');
    }
    reveal_strlit("bo$2bo$3o!");
    assert(plain_body("bo$2bo$3o!"@)) by {
        assert("bo$2bo$3o!"@[1] == 'o');
    }
    reveal_strlit("bo2bo$o$o3bo$4o!");
    assert(plain_body("bo2bo$o$o3bo$4o!"@)) by {
        assert("bo2bo$o$o3bo$4o!"@[1] == 'o');
    }
    reveal_strlit("2b3o$bo2bo$o3bo$o2bo$3o!");
    assert(plain_body("2b3o$bo2bo$o3bo$o2bo$3o!"@)) by {
        assert("2b3o$bo2bo$o3bo$o2bo$3o!"@[3] == 'o');
    }
    let d = spec_defs();
    assert forall|i: int| 0 <= i < d.len() implies plain_body(#[trigger] d[i].2) by {
    }
}

} // verus!
