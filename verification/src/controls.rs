//! The decisions behind two toolbar actions: what pasting or opening RLE
//! text does to the rule and the pattern library, and how much of the view
//! the Random button fills.
use vstd::prelude::*;
use crate::patterns::{Category, Pattern};
use crate::rle::{parse, parse_spec};
use crate::rules::{RuleSet, bs_text};
use crate::starts::half_toward_zero;
use crate::text::{decimal, push_decimal};

verus! {

broadcast use vstd::string::group_string_axioms;

/// Largest span (cells per axis) the Random button fills, so that zooming
/// all the way out and pressing it cannot ask for millions of live cells.
pub const RANDOM_MAX_SPAN: i64 = 1024;

/// The part of the visible range `lo..=hi` (on one axis) that the Random
/// button fills: at most `RANDOM_MAX_SPAN` cells around its middle.
pub open spec fn fill_span(lo: int, hi: int) -> (int, int) {
    let mid = half_toward_zero(lo + hi);
    (
        if lo >= mid - RANDOM_MAX_SPAN / 2 {
            lo
        } else {
            mid - RANDOM_MAX_SPAN / 2
        },
        if hi <= mid + RANDOM_MAX_SPAN / 2 {
            hi
        } else {
            mid + RANDOM_MAX_SPAN / 2
        },
    )
}

/// The range the Random button fills on an axis whose visible cells are
/// `lo..=hi`.
pub fn random_fill_span(lo: i64, hi: i64) -> (r: (i64, i64))
    ensures
        r.0 == fill_span(lo as int, hi as int).0,
        r.1 == fill_span(lo as int, hi as int).1,
{
    let sum = lo as i128 + hi as i128;
    let mid = sum / 2;
    assert(mid == half_toward_zero(lo + hi));
    let half = (RANDOM_MAX_SPAN / 2) as i128;
    let a = if lo as i128 >= mid - half {
        lo as i128
    } else {
        mid - half
    };
    let b = if hi as i128 <= mid + half {
        hi as i128
    } else {
        mid + half
    };
    (a as i64, b as i64)
}

/// The status line for a failed import.
pub open spec fn msg_import_failed(reason: Seq<char>) -> Seq<char> {
    "Import failed: "@ + reason
}

pub open spec fn msg_no_cells() -> Seq<char> {
    "no live cells"@
}

/// The status line for a successful import of `n` cells under `rule`.
pub open spec fn msg_loaded(n: nat, rule: RuleSet) -> Seq<char> {
    "Loaded "@ + decimal(n) + " cells under "@ + bs_text(rule) + " - click canvas to place"@
}

/// What an import brings in.
pub struct Pasted {
    /// The rule to switch to first: the header's rule, when it is not the
    /// active one.
    pub switch_to: Option<RuleSet>,
    /// The pattern now in hand, in the `Imported` category.
    pub pattern: Pattern,
    /// The status line to show.
    pub status: String,
}

/// Reads pasted or opened RLE text while `active` is the rule: the rule to
/// switch to (when the header names another one), the pattern to put in the
/// library's `Imported` slot, and the status line; or, when the text does
/// not read or holds no live cell, the status line saying so.
pub fn paste_rle(text: &str, name: &str, active: RuleSet) -> (r: Result<Pasted, String>)
    ensures
        match (r, parse_spec(text@)) {
            (Err(e), Err(m)) => e@ == msg_import_failed(m),
            (Err(e), Ok(st)) => st.cells.len() == 0 && e@ == msg_import_failed(msg_no_cells()),
            (Ok(p), Ok(st)) => {
                &&& st.cells.len() > 0
                &&& p.pattern.name@ == name@
                &&& p.pattern.category == Category::Imported
                &&& p.pattern.cells@ == st.cells
                &&& match st.rule {
                    Some((b, s)) => if b == active.birth@ && s == active.survive@ {
                        p.switch_to is None && p.status@ == msg_loaded(st.cells.len(), active)
                    } else {
                        p.switch_to matches Some(to) && to.birth@ == b && to.survive@ == s
                            && p.status@ == msg_loaded(st.cells.len(), to)
                    },
                    None => p.switch_to is None && p.status@ == msg_loaded(st.cells.len(), active),
                }
            },
            _ => false,
        },
{
    let rle = match parse(text) {
        Ok(rle) => rle,
        Err(e) => {
            let mut s = String::from_str("Import failed: ");
            s.append(e.as_str());
            return Err(s);
        },
    };
    if rle.cells.len() == 0 {
        proof {
            reveal_strlit("Import failed: no live cells");
            reveal_strlit("Import failed: ");
            reveal_strlit("no live cells");
            assert("Import failed: no live cells"@ =~= msg_import_failed(msg_no_cells()));
        }
        return Err(String::from_str("Import failed: no live cells"));
    }
    let mut switch_to: Option<RuleSet> = None;
    let mut now = active;
    match rle.rule {
        Some(r) => {
            if r != active {
                switch_to = Some(r);
                now = r;
            }
        },
        None => {},
    }
    let mut status = String::from_str("Loaded ");
    push_decimal(&mut status, rle.cells.len() as u128);
    status.append(" cells under ");
    status.append(now.to_bs_string().as_str());
    status.append(" - click canvas to place");
    Ok(
        Pasted {
            switch_to,
            pattern: Pattern { name: String::from_str(name), category: Category::Imported, cells: rle.cells },
            status,
        },
    )
}

/// `lib` without its imported patterns, in order.
pub open spec fn kept_patterns(lib: Seq<Pattern>) -> Seq<Pattern>
    decreases lib.len(),
{
    if lib.len() == 0 {
        Seq::empty()
    } else {
        kept_patterns(lib.drop_last()) + if lib.last().category == Category::Imported {
            Seq::empty()
        } else {
            seq![lib.last()]
        }
    }
}

/// Puts `pattern` in the library as the one imported pattern: any earlier
/// import leaves, the rest keep their order, and the new one goes last.
/// Returns its index.
pub fn add_imported(library: &mut Vec<Pattern>, pattern: Pattern) -> (k: usize)
    ensures
        final(library)@ == kept_patterns(old(library)@).push(pattern),
        k + 1 == final(library)@.len(),
{
    let ghost o = library@;
    let mut i: usize = 0;
    let ghost mut p: int = 0;
    assert(o.take(0) =~= Seq::<Pattern>::empty());
    assert(o.skip(0) =~= o);
    while i < library.len()
        invariant
            0 <= p <= o.len(),
            i == kept_patterns(o.take(p)).len(),
            library@ == kept_patterns(o.take(p)) + o.skip(p),
        decreases library.len() - i,
    {
        assert(library@[i as int] == o[p]);
        assert(o.take(p + 1).drop_last() =~= o.take(p));
        assert(o.take(p + 1).last() == o[p]);
        if library[i].category == Category::Imported {
            library.remove(i);
            assert(library@ =~= kept_patterns(o.take(p + 1)) + o.skip(p + 1));
        } else {
            assert(library@ =~= kept_patterns(o.take(p + 1)) + o.skip(p + 1));
            i += 1;
        }
        proof {
            p = p + 1;
        }
    }
    assert(p == o.len()) by {
        if p < o.len() {
            assert(library@.len() > i);
        }
    }
    assert(o.take(p) =~= o);
    assert(o.skip(p) =~= Seq::<Pattern>::empty());
    library.push(pattern);
    library.len() - 1
}

} // verus!
