//! Pattern collection for Conway's Life (B3/S23): still lifes, oscillators, spaceships, guns and methuselahs.
use vstd::prelude::*;
use super::{Category, Def, DefSpec, def_view};
use crate::plain_rle::plain_body;

verus! {

/// Name, category and RLE of each pattern of the collection.
pub open spec fn spec_defs() -> Seq<DefSpec> {
    seq![
        ("Block"@, Category::StillLife, "2o$2o!"@),
        ("Beehive"@, Category::StillLife, "b2o$o2bo$b2o!"@),
        ("Loaf"@, Category::StillLife, "b2o$o2bo$bobo$2bo!"@),
        ("Boat"@, Category::StillLife, "2o$obo$bo!"@),
        ("Tub"@, Category::StillLife, "bo$obo$bo!"@),
        ("Ship"@, Category::StillLife, "2o$obo$b2o!"@),
        ("Pond"@, Category::StillLife, "b2o$o2bo$o2bo$b2o!"@),
        ("Barge"@, Category::StillLife, "bo$obo$bobo$2bo!"@),
        ("Long Boat"@, Category::StillLife, "2o$obo$bobo$2bo!"@),
        ("Blinker"@, Category::Oscillator, "3o!"@),
        ("Toad"@, Category::Oscillator, "b3o$3o!"@),
        ("Beacon"@, Category::Oscillator, "2o$2o$2b2o$2b2o!"@),
        ("Clock"@, Category::Oscillator, "2bo$obo$bobo$bo!"@),
        ("Pulsar"@, Category::Oscillator, "2b3o3b3o2b2$o4bobo4bo$o4bobo4bo$o4bobo4bo$2b3o3b3o2b2$2b3o3b3o2b$o4bobo4bo$o4bobo4bo$o4bobo4bo2$2b3o3b3o!"@),
        ("Pentadecathlon"@, Category::Oscillator, "2bo4bo2b$2ob4ob2o$2bo4bo!"@),
        ("Queen Bee Shuttle"@, Category::Oscillator, "9bo12b$7bobo12b$6bobo13b$2o3bo2bo11b2o$2o4bobo11b2o$7bobo12b$9bo!"@),
        ("Figure Eight"@, Category::Oscillator, "2o4b$2obo2b$4bo$bo4b$2bob2o$4b2o!"@),
        ("Kok's Galaxy"@, Category::Oscillator, "2bo2bobo$2obob3o$bo6bo$2o5bo2$bo5b2o$o6bo$b3obob2o$bobo2bo!"@),
        ("Glider"@, Category::Spaceship, "bo$2bo$3o!"@),
        ("Lightweight Spaceship"@, Category::Spaceship, "bo2bo$o4b$o3bo$4o!"@),
        ("Middleweight Spaceship"@, Category::Spaceship, "3bo2b$bo3bo$o5b$o4bo$5o!"@),
        ("Heavyweight Spaceship"@, Category::Spaceship, "3b2o2b$bo4bo$o6b$o5bo$6o!"@),
        ("Loafer"@, Category::Spaceship, "b2o2bob2o$o2bo2b2o$bobo$2bo$8bo$6b3o$5bo$6bo$7b2o!"@),
        ("Copperhead"@, Category::Spaceship, "b2o2b2o$3b2o$3b2o$obo2bobo$o6bo2$o6bo$b2o2b2o$2b4o2$3b2o$3b2o!"@),
        ("Gosper Glider Gun"@, Category::Gun, "24bo$22bobo$12b2o6b2o12b2o$11bo3bo4b2o12b2o$2o8bo5bo3b2o$2o8bo3bob2o4bobo$10bo5bo7bo$11bo3bo$12b2o!"@),
        ("Simkin Glider Gun"@, Category::Gun, "2o5b2o$2o5b2o2$4b2o$4b2o5$22b2ob2o$21bo5bo$21bo6bo2b2o$21b3o3bo3b2o$26bo4$20b2o$20bo$21b3o$23bo!"@),
        ("R-pentomino"@, Category::Methuselah, "b2o$2o$bo!"@),
        ("Diehard"@, Category::Methuselah, "6bo$2o$bo3b3o!"@),
        ("Acorn"@, Category::Methuselah, "bo$3bo$2o2b3o!"@),
        ("B-heptomino"@, Category::Methuselah, "ob2o$3o$bo!"@),
        ("Pi-heptomino"@, Category::Methuselah, "3o$obo$obo!"@),
        ("Rabbits"@, Category::Methuselah, "o3b3o$3o2bo$bo!"@),
    ]
}

pub fn defs() -> (r: Vec<Def>)
    ensures
        r@.map_values(|d: Def| def_view(d)) == spec_defs(),
{
    let mut v: Vec<Def> = Vec::new();
    v.push(Def { name: "Block", category: Category::StillLife, rle: "2o$2o!" });
    v.push(Def { name: "Beehive", category: Category::StillLife, rle: "b2o$o2bo$b2o!" });
    v.push(Def { name: "Loaf", category: Category::StillLife, rle: "b2o$o2bo$bobo$2bo!" });
    v.push(Def { name: "Boat", category: Category::StillLife, rle: "2o$obo$bo!" });
    v.push(Def { name: "Tub", category: Category::StillLife, rle: "bo$obo$bo!" });
    v.push(Def { name: "Ship", category: Category::StillLife, rle: "2o$obo$b2o!" });
    v.push(Def { name: "Pond", category: Category::StillLife, rle: "b2o$o2bo$o2bo$b2o!" });
    v.push(Def { name: "Barge", category: Category::StillLife, rle: "bo$obo$bobo$2bo!" });
    v.push(Def { name: "Long Boat", category: Category::StillLife, rle: "2o$obo$bobo$2bo!" });
    v.push(Def { name: "Blinker", category: Category::Oscillator, rle: "3o!" });
    v.push(Def { name: "Toad", category: Category::Oscillator, rle: "b3o$3o!" });
    v.push(Def { name: "Beacon", category: Category::Oscillator, rle: "2o$2o$2b2o$2b2o!" });
    v.push(Def { name: "Clock", category: Category::Oscillator, rle: "2bo$obo$bobo$bo!" });
    v.push(Def { name: "Pulsar", category: Category::Oscillator, rle: "2b3o3b3o2b2$o4bobo4bo$o4bobo4bo$o4bobo4bo$2b3o3b3o2b2$2b3o3b3o2b$o4bobo4bo$o4bobo4bo$o4bobo4bo2$2b3o3b3o!" });
    v.push(Def { name: "Pentadecathlon", category: Category::Oscillator, rle: "2bo4bo2b$2ob4ob2o$2bo4bo!" });
    v.push(Def { name: "Queen Bee Shuttle", category: Category::Oscillator, rle: "9bo12b$7bobo12b$6bobo13b$2o3bo2bo11b2o$2o4bobo11b2o$7bobo12b$9bo!" });
    v.push(Def { name: "Figure Eight", category: Category::Oscillator, rle: "2o4b$2obo2b$4bo$bo4b$2bob2o$4b2o!" });
    v.push(Def { name: "Kok's Galaxy", category: Category::Oscillator, rle: "2bo2bobo$2obob3o$bo6bo$2o5bo2$bo5b2o$o6bo$b3obob2o$bobo2bo!" });
    v.push(Def { name: "Glider", category: Category::Spaceship, rle: "bo$2bo$3o!" });
    v.push(Def { name: "Lightweight Spaceship", category: Category::Spaceship, rle: "bo2bo$o4b$o3bo$4o!" });
    v.push(Def { name: "Middleweight Spaceship", category: Category::Spaceship, rle: "3bo2b$bo3bo$o5b$o4bo$5o!" });
    v.push(Def { name: "Heavyweight Spaceship", category: Category::Spaceship, rle: "3b2o2b$bo4bo$o6b$o5bo$6o!" });
    v.push(Def { name: "Loafer", category: Category::Spaceship, rle: "b2o2bob2o$o2bo2b2o$bobo$2bo$8bo$6b3o$5bo$6bo$7b2o!" });
    v.push(Def { name: "Copperhead", category: Category::Spaceship, rle: "b2o2b2o$3b2o$3b2o$obo2bobo$o6bo2$o6bo$b2o2b2o$2b4o2$3b2o$3b2o!" });
    v.push(Def { name: "Gosper Glider Gun", category: Category::Gun, rle: "24bo$22bobo$12b2o6b2o12b2o$11bo3bo4b2o12b2o$2o8bo5bo3b2o$2o8bo3bob2o4bobo$10bo5bo7bo$11bo3bo$12b2o!" });
    v.push(Def { name: "Simkin Glider Gun", category: Category::Gun, rle: "2o5b2o$2o5b2o2$4b2o$4b2o5$22b2ob2o$21bo5bo$21bo6bo2b2o$21b3o3bo3b2o$26bo4$20b2o$20bo$21b3o$23bo!" });
    v.push(Def { name: "R-pentomino", category: Category::Methuselah, rle: "b2o$2o$bo!" });
    v.push(Def { name: "Diehard", category: Category::Methuselah, rle: "6bo$2o$bo3b3o!" });
    v.push(Def { name: "Acorn", category: Category::Methuselah, rle: "bo$3bo$2o2b3o!" });
    v.push(Def { name: "B-heptomino", category: Category::Methuselah, rle: "ob2o$3o$bo!" });
    v.push(Def { name: "Pi-heptomino", category: Category::Methuselah, rle: "3o$obo$obo!" });
    v.push(Def { name: "Rabbits", category: Category::Methuselah, rle: "o3b3o$3o2bo$bo!" });
    assert(v@.map_values(|d: Def| def_view(d)) =~= spec_defs());
    v
}


/// Every pattern text of the collection is a plain body, so it reads and
/// makes at least one cell live.
pub proof fn lemma_texts_plain()
    ensures
        forall|i: int| 0 <= i < spec_defs().len() ==> plain_body(#[trigger] spec_defs()[i].2),
{
    reveal_strlit("2o$2o!");
    assert(plain_body("2o$2o!"@)) by {
        assert("2o$2o!"@[1] == 'o');
    }
    reveal_strlit("b2o$o2bo$b2o!");
    assert(plain_body("b2o$o2bo$b2o!"@)) by {
        assert("b2o$o2bo$b2o!"@[2] == 'o');
    }
    reveal_strlit("b2o$o2bo$bobo$2bo!");
    assert(plain_body("b2o$o2bo$bobo$2bo!"@)) by {
        assert("b2o$o2bo$bobo$2bo!"@[2] == 'o');
    }
    reveal_strlit("2o$obo$bo!");
    assert(plain_body("2o$obo$bo!"@)) by {
        assert("2o$obo$bo!"@[1] == 'o');
    }
    reveal_strlit("bo$obo$bo!");
    assert(plain_body("bo$obo$bo!"@)) by {
        assert("bo$obo$bo!"@[1] == 'o');
    }
    reveal_strlit("2o$obo$b2o!");
    assert(plain_body("2o$obo$b2o!"@)) by {
        assert("2o$obo$b2o!"@[1] == 'o');
    }
    reveal_strlit("b2o$o2bo$o2bo$b2o!");
    assert(plain_body("b2o$o2bo$o2bo$b2o!"@)) by {
        assert("b2o$o2bo$o2bo$b2o!"@[2] == 'o');
    }
    reveal_strlit("bo$obo$bobo$2bo!");
    assert(plain_body("bo$obo$bobo$2bo!"@)) by {
        assert("bo$obo$bobo$2bo!"@[1] == 'o');
    }
    reveal_strlit("2o$obo$bobo$2bo!");
    assert(plain_body("2o$obo$bobo$2bo!"@)) by {
        assert("2o$obo$bobo$2bo!"@[1] == 'o');
    }
    reveal_strlit("3o!");
    assert(plain_body("3o!"@)) by {
        assert("3o!"@[1] == 'o');
    }
    reveal_strlit("b3o$3o!");
    assert(plain_body("b3o$3o!"@)) by {
        assert("b3o$3o!"@[2] == 'o');
    }
    reveal_strlit("2o$2o$2b2o$2b2o!");
    assert(plain_body("2o$2o$2b2o$2b2o!"@)) by {
        assert("2o$2o$2b2o$2b2o!"@[1] == 'o');
    }
    reveal_strlit("2bo$obo$bobo$bo!");
    assert(plain_body("2bo$obo$bobo$bo!"@)) by {
        assert("2bo$obo$bobo$bo!"@[2] == 'o');
    }
    reveal_strlit("2b3o3b3o2b2$o4bobo4bo$o4bobo4bo$o4bobo4bo$2b3o3b3o2b2$2b3o3b3o2b$o4bobo4bo$o4bobo4bo$o4bobo4bo2$2b3o3b3o!");
    assert(plain_body("2b3o3b3o2b2$o4bobo4bo$o4bobo4bo$o4bobo4bo$2b3o3b3o2b2$2b3o3b3o2b$o4bobo4bo$o4bobo4bo$o4bobo4bo2$2b3o3b3o!"@)) by {
        assert("2b3o3b3o2b2$o4bobo4bo$o4bobo4bo$o4bobo4bo$2b3o3b3o2b2$2b3o3b3o2b$o4bobo4bo$o4bobo4bo$o4bobo4bo2$2b3o3b3o!"@[3] == 'o');
    }
    reveal_strlit("2bo4bo2b$2ob4ob2o$2bo4bo!");
    assert(plain_body("2bo4bo2b$2ob4ob2o$2bo4bo!"@)) by {
        assert("2bo4bo2b$2ob4ob2o$2bo4bo!"@[2] == 'o');
    }
    reveal_strlit("9bo12b$7bobo12b$6bobo13b$2o3bo2bo11b2o$2o4bobo11b2o$7bobo12b$9bo!");
    assert(plain_body("9bo12b$7bobo12b$6bobo13b$2o3bo2bo11b2o$2o4bobo11b2o$7bobo12b$9bo!"@)) by {
        assert("9bo12b$7bobo12b$6bobo13b$2o3bo2bo11b2o$2o4bobo11b2o$7bobo12b$9bo!"@[2] == 'o');
    }
    reveal_strlit("2o4b$2obo2b$4bo$bo4b$2bob2o$4b2o!");
    assert(plain_body("2o4b$2obo2b$4bo$bo4b$2bob2o$4b2o!"@)) by {
        assert("2o4b$2obo2b$4bo$bo4b$2bob2o$4b2o!"@[1] == 'o');
    }
    reveal_strlit("2bo2bobo$2obob3o$bo6bo$2o5bo2$bo5b2o$o6bo$b3obob2o$bobo2bo!");
    assert(plain_body("2bo2bobo$2obob3o$bo6bo$2o5bo2$bo5b2o$o6bo$b3obob2o$bobo2bo!"@)) by {
        assert("2bo2bobo$2obob3o$bo6bo$2o5bo2$bo5b2o$o6bo$b3obob2o$bobo2bo!"@[2] == 'o');
    }
    reveal_strlit("bo$2bo$3o!");
    assert(plain_body("bo$2bo$3o!"@)) by {
        assert("bo$2bo$3o!"@[1] == 'o');
    }
    reveal_strlit("bo2bo$o4b$o3bo$4o!");
    assert(plain_body("bo2bo$o4b$o3bo$4o!"@)) by {
        assert("bo2bo$o4b$o3bo$4o!"@[1] == 'o');
    }
    reveal_strlit("3bo2b$bo3bo$o5b$o4bo$5o!");
    assert(plain_body("3bo2b$bo3bo$o5b$o4bo$5o!"@)) by {
        assert("3bo2b$bo3bo$o5b$o4bo$5o!"@[2] == 'o');
    }
    reveal_strlit("3b2o2b$bo4bo$o6b$o5bo$6o!");
    assert(plain_body("3b2o2b$bo4bo$o6b$o5bo$6o!"@)) by {
        assert("3b2o2b$bo4bo$o6b$o5bo$6o!"@[3] == 'o');
    }
    reveal_strlit("b2o2bob2o$o2bo2b2o$bobo$2bo$8bo$6b3o$5bo$6bo$7b2o!");
    assert(plain_body("b2o2bob2o$o2bo2b2o$bobo$2bo$8bo$6b3o$5bo$6bo$7b2o!"@)) by {
        assert("b2o2bob2o$o2bo2b2o$bobo$2bo$8bo$6b3o$5bo$6bo$7b2o!"@[2] == 'o');
    }
    reveal_strlit("b2o2b2o$3b2o$3b2o$obo2bobo$o6bo2$o6bo$b2o2b2o$2b4o2$3b2o$3b2o!");
    assert(plain_body("b2o2b2o$3b2o$3b2o$obo2bobo$o6bo2$o6bo$b2o2b2o$2b4o2$3b2o$3b2o!"@)) by {
        assert("b2o2b2o$3b2o$3b2o$obo2bobo$o6bo2$o6bo$b2o2b2o$2b4o2$3b2o$3b2o!"@[2] == 'o');
    }
    reveal_strlit("24bo$22bobo$12b2o6b2o12b2o$11bo3bo4b2o12b2o$2o8bo5bo3b2o$2o8bo3bob2o4bobo$10bo5bo7bo$11bo3bo$12b2o!");
    assert(plain_body("24bo$22bobo$12b2o6b2o12b2o$11bo3bo4b2o12b2o$2o8bo5bo3b2o$2o8bo3bob2o4bobo$10bo5bo7bo$11bo3bo$12b2o!"@)) by {
        assert("24bo$22bobo$12b2o6b2o12b2o$11bo3bo4b2o12b2o$2o8bo5bo3b2o$2o8bo3bob2o4bobo$10bo5bo7bo$11bo3bo$12b2o!"@[3] == 'o');
    }
    reveal_strlit("2o5b2o$2o5b2o2$4b2o$4b2o5$22b2ob2o$21bo5bo$21bo6bo2b2o$21b3o3bo3b2o$26bo4$20b2o$20bo$21b3o$23bo!");
    assert(plain_body("2o5b2o$2o5b2o2$4b2o$4b2o5$22b2ob2o$21bo5bo$21bo6bo2b2o$21b3o3bo3b2o$26bo4$20b2o$20bo$21b3o$23bo!"@)) by {
        assert("2o5b2o$2o5b2o2$4b2o$4b2o5$22b2ob2o$21bo5bo$21bo6bo2b2o$21b3o3bo3b2o$26bo4$20b2o$20bo$21b3o$23bo!"@[1] == 'o');
    }
    reveal_strlit("b2o$2o$bo!");
    assert(plain_body("b2o$2o$bo!"@)) by {
        assert("b2o$2o$bo!"@[2] == 'o');
    }
    reveal_strlit("6bo$2o$bo3b3o!");
    assert(plain_body("6bo$2o$bo3b3o!"@)) by {
        assert("6bo$2o$bo3b3o!"@[2] == 'o');
    }
    reveal_strlit("bo$3bo$2o2b3o!");
    assert(plain_body("bo$3bo$2o2b3o!"@)) by {
        assert("bo$3bo$2o2b3o!"@[1] == 'o');
    }
    reveal_strlit("ob2o$3o$bo!");
    assert(plain_body("ob2o$3o$bo!"@)) by {
        assert("ob2o$3o$bo!"@[0] == 'o');
    }
    reveal_strlit("3o$obo$obo!");
    assert(plain_body("3o$obo$obo!"@)) by {
        assert("3o$obo$obo!"@[1] == 'o');
    }
    reveal_strlit("o3b3o$3o2bo$bo!");
    assert(plain_body("o3b3o$3o2bo$bo!"@)) by {
        assert("o3b3o$3o2bo$bo!"@[0] == 'o');
    }
    let d = spec_defs();
    assert forall|i: int| 0 <= i < d.len() implies plain_body(#[trigger] d[i].2) by {
    }
}

} // verus!
