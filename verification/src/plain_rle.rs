//! A one-line RLE body of short runs always reads: the kind of text the
//! built-in patterns are written in.
use vstd::prelude::*;
use crate::rle::{Flow, ReadState, body_from, line_step, lines_from, parse_spec, start_state};
use crate::text::{is_ws, lemma_find_is, skip_ws, skip_ws_end, split, trim};

verus! {

pub open spec fn is_digit(c: char) -> bool {
    '0' <= c <= '9'
}

/// A body character other than the terminator: a digit or a tag.
pub open spec fn run_char(c: char) -> bool {
    is_digit(c) || c == 'b' || c == 'o' || c == '$'
}

/// One line of runs with counts of at most two digits, ended by `!`, that
/// makes at least one cell live.
pub open spec fn plain_body(t: Seq<char>) -> bool {
    &&& 1 <= t.len() <= 1000
    &&& t.last() == '!'
    &&& forall|i: int| 0 <= i < t.len() - 1 ==> run_char(#[trigger] t[i])
    &&& forall|i: int| 0 <= i < t.len() - 2 ==> !(is_digit(#[trigger] t[i]) && is_digit(t[i + 1]) && is_digit(t[i + 2]))
    &&& exists|i: int| 0 <= i < t.len() - 1 && #[trigger] t[i] == 'o'
}

/// Reading a plain body from position `i` stops at its `!`, never loses a
/// cell, and has made a cell live by then when an `o` lies ahead.
proof fn lemma_plain_body_reads(st: ReadState, t: Seq<char>, i: int)
    requires
        plain_body(t),
        0 <= i < t.len(),
        0 <= st.x <= 100 * i,
        0 <= st.y <= 100 * i,
        st.cells.len() <= 100 * i,
        0 <= st.count < 100,
        i == 0 || !is_digit(t[i - 1]) ==> st.count == 0,
        i >= 1 && is_digit(t[i - 1]) && (i == 1 || !is_digit(t[i - 2])) ==> st.count < 10,
    ensures
        body_from(st, t, i as nat) matches Flow::Stop(s) && s.cells.len() >= st.cells.len() && ((exists|j: int|
            i <= j < t.len() - 1 && #[trigger] t[j] == 'o') ==> s.cells.len() > 0),
    decreases t.len() - i,
{
    let c = t[i];
    if i == t.len() - 1 {
        assert(body_from(st, t, i as nat) == Flow::Stop(st));
    } else {
        assert(run_char(c));
        if i >= 2 && is_digit(c) {
            assert(!(is_digit(t[i - 2]) && is_digit(t[i - 1]) && is_digit(t[i])));
        }
        let next = match crate::rle::body_char(st, c) {
            Flow::Go(n) => n,
            _ => st,
        };
        assert(crate::rle::body_char(st, c) is Go);
        assert(body_from(st, t, i as nat) == body_from(next, t, (i + 1) as nat));
        if i + 1 < t.len() - 1 && is_digit(t[i + 1]) && is_digit(c) {
            assert(!is_digit(t[i - 1]) || i == 0) by {
                if i >= 1 && is_digit(t[i - 1]) {
                    assert(!(is_digit(t[i - 1]) && is_digit(t[i]) && is_digit(t[i + 1])));
                }
            }
        }
        lemma_plain_body_reads(next, t, i + 1);
        if exists|j: int| i <= j < t.len() - 1 && #[trigger] t[j] == 'o' {
            let j = choose|j: int| i <= j < t.len() - 1 && #[trigger] t[j] == 'o';
            if j > i {
                assert(exists|j2: int| i + 1 <= j2 < t.len() - 1 && #[trigger] t[j2] == 'o');
            } else {
                assert(next.cells.len() > st.cells.len());
            }
        }
    }
}

/// A plain body reads as a pattern with at least one live cell.
pub proof fn lemma_plain_body_parses(t: Seq<char>)
    requires
        plain_body(t),
    ensures
        parse_spec(t) matches Ok(st) && st.cells.len() > 0,
{
    assert forall|j: int| 0 <= j < t.len() implies #[trigger] t[j] != '\n' && !is_ws(t[j]) by {
        if j < t.len() - 1 {
            assert(run_char(t[j]));
        }
    }
    lemma_find_is(t, '\n', t.len() as int);
    let lines = split(t, '\n');
    assert(lines == seq![t]);
    assert(skip_ws(t) == t);
    assert(skip_ws_end(t) == t);
    assert(trim(t) == t);
    if t.len() > 1 {
        assert(run_char(t[0]));
    }
    let st_b = ReadState { in_body: true, ..start_state() };
    lemma_plain_body_reads(st_b, t, 0);
    assert(line_step(start_state(), t, 0) == body_from(st_b, t, 0));
    assert(lines_from(start_state(), lines, 0) == match line_step(start_state(), t, 0) {
        Flow::Go(next) => lines_from(next, lines, 1),
        Flow::Stop(done) => Ok::<ReadState, Seq<char>>(done),
        Flow::Fail(m) => Err(m),
    });
}

} // verus!
