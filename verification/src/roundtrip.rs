//! What `parse` makes of the text `to_rle` writes: the same rule and the
//! same cells, shifted so the bounding box starts at the origin.
use vstd::prelude::*;
use crate::cellset::{Cell, lex_le, lex_lt, sorted, strictly_sorted};
use crate::rle::{
    MAX_CELLS, MAX_EXTENT, ReadState, Flow, after_tag, body_char, body_from, run_of, run_token,
    tokens_from, wrap, run_end, lemma_run_end, header_field, header_from, line_step, lines_from,
    max_col, min_col, parse_spec, rle_text_of, start_state, row_major, swap, lemma_row_major,
};
use crate::rules::{RuleSet, bs_text, lemma_bs_text_chars, lemma_rule_text_round_trip, rule_char, rule_text_spec};
use crate::text::{decimal, digit_char, is_ws, lemma_decimal_bound, lemma_decimal_digits, pow10, lemma_find_is, skip_ws, skip_ws_end, split, trim};

verus! {

/// All the pieces of `ts`, one after the other.
pub open spec fn concat_all(ts: Seq<Seq<char>>) -> Seq<char>
    decreases ts.len(),
{
    if ts.len() == 0 {
        Seq::empty()
    } else {
        ts[0] + concat_all(ts.drop_first())
    }
}

proof fn lemma_concat_all_add(a: Seq<Seq<char>>, b: Seq<Seq<char>>)
    ensures
        concat_all(a + b) == concat_all(a) + concat_all(b),
    decreases a.len(),
{
    if a.len() == 0 {
        assert(a + b =~= b);
        assert(concat_all(a) + concat_all(b) =~= concat_all(b));
    } else {
        assert((a + b).drop_first() =~= a.drop_first() + b);
        lemma_concat_all_add(a.drop_first(), b);
        assert((a + b)[0] == a[0]);
        assert(concat_all(a + b) =~= a[0] + (concat_all(a.drop_first()) + concat_all(b)));
    }
}

/// Reading `a + b` from position `a.len() + j` is reading `b` from `j`.
proof fn lemma_body_shift(st: ReadState, a: Seq<char>, b: Seq<char>, j: nat)
    requires
        j <= b.len(),
    ensures
        body_from(st, a + b, a.len() + j) == body_from(st, b, j),
    decreases b.len() - j,
{
    if j < b.len() {
        assert((a + b)[(a.len() + j) as int] == b[j as int]);
        match body_char(st, b[j as int]) {
            Flow::Go(next) => {
                lemma_body_shift(next, a, b, j + 1);
            },
            _ => {},
        }
    }
}

/// Reading `a + b` is reading `a`, then, if that goes on, reading `b`.
pub proof fn lemma_body_concat(st: ReadState, a: Seq<char>, b: Seq<char>, i: nat)
    requires
        i <= a.len(),
    ensures
        body_from(st, a + b, i) == match body_from(st, a, i) {
            Flow::Go(next) => body_from(next, b, 0),
            other => other,
        },
    decreases a.len() - i,
{
    if i == a.len() {
        lemma_body_shift(st, a, b, 0);
    } else {
        assert((a + b)[i as int] == a[i as int]);
        match body_char(st, a[i as int]) {
            Flow::Go(next) => {
                lemma_body_concat(next, a, b, i + 1);
            },
            _ => {},
        }
    }
}

/// Reading the digits of `n` from a zero count leaves the count at `n`.
proof fn lemma_read_decimal(st: ReadState, n: nat)
    requires
        st.count == 0,
        n <= MAX_EXTENT,
    ensures
        body_from(st, decimal(n), 0) == Flow::Go(ReadState { count: n as int, ..st }),
    decreases n,
{
    let d = digit_char(n % 10);
    assert('0' <= d <= '9');
    assert((d as u32) - ('0' as u32) == n % 10);
    if n < 10 {
        assert(decimal(n) == seq![d]);
        let done = ReadState { count: n as int, ..st };
        assert(body_char(st, d) == Flow::Go(done));
        assert(body_from(done, seq![d], 1) == Flow::Go(done));
    } else {
        lemma_read_decimal(st, n / 10);
        let st1 = ReadState { count: (n / 10) as int, ..st };
        assert(decimal(n) == decimal(n / 10) + seq![d]);
        lemma_body_concat(st, decimal(n / 10), seq![d], 0);
        assert((n / 10) * 10 + n % 10 == n);
        let done = ReadState { count: n as int, ..st };
        assert(body_char(st1, d) == Flow::Go(done));
        assert(body_from(done, seq![d], 1) == Flow::Go(done));
    }
}

/// Reading one item of `n` times `tag` from a zero count is reading `tag`
/// with count `n`.
proof fn lemma_read_token(st: ReadState, n: nat, tag: char)
    requires
        st.count == 0,
        1 <= n <= MAX_EXTENT,
        tag == 'b' || tag == 'o' || tag == '$',
    ensures
        body_from(st, run_token(n, tag), 0) == body_char(ReadState { count: n as int, ..st }, tag),
{
    if n == 1 {
        assert(run_token(n, tag) == seq![tag]);
        assert(after_tag(st, tag) == after_tag(ReadState { count: n as int, ..st }, tag));
        match body_char(st, tag) {
            Flow::Go(next) => {
                assert(body_from(next, seq![tag], 1) == Flow::Go(next));
            },
            _ => {},
        }
    } else {
        lemma_read_decimal(st, n);
        lemma_body_concat(st, decimal(n), seq![tag], 0);
        lemma_decimal_digits(n);
        assert(run_token(n, tag) == decimal(n) + seq![tag]);
        match body_char(ReadState { count: n as int, ..st }, tag) {
            Flow::Go(next) => {
                assert(body_from(next, seq![tag], 1) == Flow::Go(next));
            },
            _ => {},
        }
    }
}

/// Where `parse` puts the cell `c` (given as `(row, column)`) of text written
/// with the bounding box's top-left corner at `(min_x, min_y)`.
pub open spec fn placed(c: Cell, min_x: int, min_y: int) -> (i32, i32) {
    ((c.1 - min_x) as i32, (c.0 - min_y) as i32)
}

/// The first `i` row-major cells of `l`, as `parse` gives them back.
pub open spec fn placed_upto(l: Seq<Cell>, i: nat, min_x: int, min_y: int) -> Seq<(i32, i32)> {
    l.take(i as int).map_values(|c: Cell| placed(c, min_x, min_y))
}

/// The cells fit the limits `parse` enforces, relative to `(min_x, min_y)`.
pub open spec fn fits_reader(l: Seq<Cell>, min_x: int, min_y: int) -> bool {
    &&& strictly_sorted(l)
    &&& l.len() <= MAX_CELLS
    &&& forall|m: int| 0 <= m < l.len() ==> min_x <= (#[trigger] l[m]).1 && l[m].1 - min_x < MAX_EXTENT
    &&& forall|m: int| 0 <= m < l.len() ==> min_y <= (#[trigger] l[m]).0 && l[m].0 - min_y <= MAX_EXTENT
}

/// Reading a piece that may be absent: nothing changes when it is.
proof fn lemma_read_maybe(st: ReadState, toks: Seq<Seq<char>>, rest: Seq<char>)
    requires
        toks.len() <= 1,
    ensures
        toks.len() == 0 ==> body_from(st, concat_all(toks) + rest, 0) == body_from(st, rest, 0),
        toks.len() == 1 ==> concat_all(toks) == toks[0],
{
    if toks.len() == 0 {
        assert(concat_all(toks) + rest =~= rest);
    } else {
        assert(toks.drop_first() =~= Seq::<Seq<char>>::empty());
        assert(concat_all(toks.drop_first()) == Seq::<char>::empty());
        assert(concat_all(toks) == toks[0] + concat_all(toks.drop_first()));
        assert(concat_all(toks) =~= toks[0]);
    }
}

/// Reading the items the writer emits for `l[i..]` gives back the cells.
#[verifier::rlimit(40)]
#[verifier::spinoff_prover]
proof fn lemma_read_tokens(
    st: ReadState,
    l: Seq<Cell>,
    i: nat,
    row: int,
    col: int,
    min_x: int,
    min_y: int,
    tail: Seq<char>,
)
    requires
        fits_reader(l, min_x, min_y),
        i <= l.len(),
        st.count == 0,
        st.x == col,
        st.y == row - min_y,
        st.cells == placed_upto(l, i, min_x, min_y),
        min_y <= row,
        row - min_y <= MAX_EXTENT,
        0 <= col <= MAX_EXTENT,
        i < l.len() ==> row <= l[i as int].0,
        i < l.len() && row == l[i as int].0 ==> col <= l[i as int].1 - min_x,
    ensures
        match body_from(st, concat_all(tokens_from(l, i, row, col, min_x)) + tail, 0) {
            Flow::Stop(s) => s.cells == placed_upto(l, l.len(), min_x, min_y) && s.rule == st.rule
                && s.in_body == st.in_body,
            _ => false,
        },
    decreases l.len() - i,
{
    let toks = tokens_from(l, i, row, col, min_x);
    if i >= l.len() {
        assert(toks == seq![seq!['!']]);
        lemma_read_maybe(st, toks, tail);
        assert(concat_all(toks) + tail =~= seq!['!'] + tail);
        assert(body_char(st, '!') == Flow::Stop(st));
    } else {
        let cy = l[i as int].0 as int;
        let cx = l[i as int].1 - min_x;
        let col1 = if cy != row {
            0
        } else {
            col
        };
        let len = run_end(l, i, 1);
        lemma_run_end(l, i, 1);
        let ta: Seq<Seq<char>> = if cy != row {
            seq![run_token((cy - row) as nat, '$')]
        } else {
            seq![]
        };
        let tb: Seq<Seq<char>> = if cx > col1 {
            seq![run_token((cx - col1) as nat, 'b')]
        } else {
            seq![]
        };
        let to = run_token(len, 'o');
        let rest_toks = tokens_from(l, i + len, cy, cx + len, min_x);
        assert(toks == ta + tb + seq![to] + rest_toks);
        lemma_concat_all_add(ta + tb + seq![to], rest_toks);
        lemma_concat_all_add(ta + tb, seq![to]);
        lemma_concat_all_add(ta, tb);
        lemma_read_maybe(st, seq![to], Seq::empty());
        let after = concat_all(rest_toks) + tail;
        let s3 = to + after;
        let s2 = concat_all(tb) + s3;
        let s1 = concat_all(ta) + s2;
        assert(concat_all(toks) + tail =~= s1);
        // The row jump.
        let st1 = ReadState { x: if cy != row { 0 } else { st.x }, y: cy - min_y, ..st };
        assert(min_y <= cy && cy - min_y <= MAX_EXTENT);
        if cy != row {
            lemma_read_maybe(st, ta, s2);
            lemma_read_token(st, (cy - row) as nat, '$');
            lemma_body_concat(st, concat_all(ta), s2, 0);
            assert(body_from(st, concat_all(ta), 0) == Flow::Go(st1));
        } else {
            lemma_read_maybe(st, ta, s2);
        }
        assert(body_from(st, s1, 0) == body_from(st1, s2, 0));
        // The gap before the run.
        assert(col1 <= cx) by {
            if cy == row {
            }
        }
        assert(st1.x == col1);
        let st2 = ReadState { x: cx, ..st1 };
        if cx > col1 {
            lemma_read_maybe(st1, tb, s3);
            lemma_read_token(st1, (cx - col1) as nat, 'b');
            lemma_body_concat(st1, concat_all(tb), s3, 0);
            assert(body_from(st1, concat_all(tb), 0) == Flow::Go(st2));
        } else {
            lemma_read_maybe(st1, tb, s3);
        }
        assert(body_from(st1, s2, 0) == body_from(st2, s3, 0));
        // The run itself.
        crate::rle::lemma_run_adjacent(l, i, 1);
        let k_last: int = len - 1;
        assert(l[i + k_last].1 == l[i as int].1 + k_last);
        assert(cx + len <= MAX_EXTENT);
        assert(st2.cells.len() == i) by {
            assert(placed_upto(l, i, min_x, min_y).len() == i);
        }
        let st3 = ReadState {
            cells: st2.cells + run_of(cx, cy - min_y, len as int),
            x: cx + len,
            count: 0,
            ..st2
        };
        lemma_read_token(st2, len, 'o');
        lemma_body_concat(st2, to, after, 0);
        assert(body_from(st2, to, 0) == Flow::Go(st3));
        assert(body_from(st2, s3, 0) == body_from(st3, after, 0));
        assert(st3.cells == placed_upto(l, i + len, min_x, min_y)) by {
            let want = placed_upto(l, i + len, min_x, min_y);
            assert forall|m: int| 0 <= m < want.len() implies st3.cells[m] == want[m] by {
                if m >= i {
                    let k = m - i;
                    assert(l[i + k].1 == l[i as int].1 + k);
                    assert(l[i + k].0 == l[i as int].0);
                }
            }
            assert(st3.cells =~= want);
        }
        // What follows the run.
        if i + len < l.len() {
            crate::rle::lemma_run_cols(l, i, len);
        }
        lemma_read_tokens(st3, l, i + len, cy, cx + len, min_x, min_y, tail);
    }
}

/// A character of the body that a line may start with: not white space, not
/// a comment mark, not a header mark.
pub open spec fn plain(c: char) -> bool {
    !is_ws(c) && c != '#' && c != 'x'
}

/// Every character of `s` is plain or a line break.
pub open spec fn plain_or_break(s: Seq<char>) -> bool {
    forall|j: int| 0 <= j < s.len() ==> #[trigger] s[j] == '\n' || plain(s[j])
}

/// Reading keeps whether the body has started.
proof fn lemma_body_keeps_in_body(st: ReadState, line: Seq<char>, i: nat)
    ensures
        match body_from(st, line, i) {
            Flow::Go(s) => s.in_body == st.in_body && s.rule == st.rule,
            Flow::Stop(s) => s.in_body == st.in_body && s.rule == st.rule,
            Flow::Fail(_) => true,
        },
    decreases line.len() - i,
{
    if i < line.len() {
        match body_char(st, line[i as int]) {
            Flow::Go(next) => {
                lemma_body_keeps_in_body(next, line, i + 1);
            },
            _ => {},
        }
    }
}

/// Text without white space is its own trim.
proof fn lemma_trim_plain(s: Seq<char>)
    requires
        forall|j: int| 0 <= j < s.len() ==> !is_ws(#[trigger] s[j]),
    ensures
        crate::text::trim(s) == s,
{
    if s.len() > 0 {
        assert(!is_ws(s[0]));
        assert(!is_ws(s.last()));
    }
}

/// Reading text line by line agrees with reading it as one stream when no
/// line is a comment or a header and nothing is trimmed away.
proof fn lemma_lines_stream(st: ReadState, lines: Seq<Seq<char>>, k: nat, body: Seq<char>)
    requires
        k <= lines.len(),
        lines.skip(k as int) == crate::text::split(body, '\n'),
        plain_or_break(body),
    ensures
        match body_from(ReadState { in_body: true, ..st }, body, 0) {
            Flow::Stop(s) => crate::rle::lines_from(st, lines, k) == Ok::<ReadState, Seq<char>>(s),
            _ => true,
        },
    decreases body.len(),
{
    let st_t = ReadState { in_body: true, ..st };
    crate::text::lemma_find_facts(body, '\n');
    crate::text::lemma_split_len(body, '\n');
    assert(lines.skip(k as int).len() >= 1);
    assert(lines[k as int] == lines.skip(k as int)[0]);
    match crate::text::find(body, '\n') {
        None => {
            assert(crate::text::split(body, '\n') == seq![body]);
            assert forall|j: int| 0 <= j < body.len() implies !is_ws(#[trigger] body[j]) by {
                assert(body[j] != '\n');
            }
            lemma_trim_plain(body);
            if body.len() > 0 {
                assert(plain(body[0]) || body[0] == '\n');
            }
            assert(lines.len() == k + 1) by {
                assert(lines.skip(k as int).len() == 1);
            }
        },
        Some(i) => {
            let line0 = body.take(i as int);
            let rest = body.skip(i + 1 as int);
            assert(crate::text::split(body, '\n') == seq![line0] + crate::text::split(rest, '\n'));
            assert(lines[k as int] == line0);
            assert(lines.skip(k + 1 as int) =~= crate::text::split(rest, '\n')) by {
                assert(lines.skip(k + 1 as int) =~= lines.skip(k as int).drop_first());
            }
            assert forall|j: int| 0 <= j < line0.len() implies !is_ws(#[trigger] line0[j]) by {
                assert(line0[j] == body[j]);
                assert(body[j] != '\n');
            }
            lemma_trim_plain(line0);
            assert forall|j: int| 0 <= j < rest.len() implies #[trigger] rest[j] == '\n' || plain(rest[j]) by {
                assert(rest[j] == body[i + 1 + j]);
            }
            assert(body =~= line0 + (seq!['\n'] + rest));
            lemma_body_concat(st_t, line0, seq!['\n'] + rest, 0);
            lemma_body_keeps_in_body(st_t, line0, 0);
            if line0.len() == 0 {
                assert(body_from(st_t, line0, 0) == Flow::Go(st_t));
                lemma_body_concat(st_t, seq!['\n'], rest, 0);
                assert(body_from(st_t, seq!['\n'], 0) == Flow::Go(st_t)) by {
                    assert(body_from(st_t, seq!['\n'], 1) == Flow::Go(st_t));
                }
                lemma_lines_stream(st, lines, k + 1, rest);
            } else {
                assert(line0[0] == body[0]);
                assert(plain(line0[0]));
                match body_from(st_t, line0, 0) {
                    Flow::Go(s1) => {
                        lemma_body_concat(s1, seq!['\n'], rest, 0);
                        assert(body_from(s1, seq!['\n'], 0) == Flow::Go(s1)) by {
                            assert(body_from(s1, seq!['\n'], 1) == Flow::Go(s1));
                        }
                        assert(s1 == ReadState { in_body: true, ..s1 });
                        lemma_lines_stream(s1, lines, k + 1, rest);
                    },
                    _ => {},
                }
            }
        },
    }
}

/// Line breaks between items do not change what is read.
proof fn lemma_read_wrap(st: ReadState, ts: Seq<Seq<char>>, k: nat, ll: nat, tail: Seq<char>)
    requires
        k <= ts.len(),
    ensures
        body_from(st, wrap(ts, k, ll) + tail, 0) == body_from(st, concat_all(ts.skip(k as int)) + tail, 0),
    decreases ts.len() - k,
{
    if k == ts.len() {
        assert(ts.skip(k as int) =~= Seq::<Seq<char>>::empty());
        assert(wrap(ts, k, ll) + tail =~= tail);
        assert(concat_all(ts.skip(k as int)) + tail =~= tail);
    } else {
        let t = ts[k as int];
        assert(ts.skip(k as int)[0] == t);
        assert(ts.skip(k as int).drop_first() =~= ts.skip(k + 1 as int));
        let c_rest = concat_all(ts.skip(k + 1 as int)) + tail;
        assert(concat_all(ts.skip(k as int)) + tail =~= t + c_rest);
        let nl = if ll + t.len() > 70 {
            t.len()
        } else {
            ll + t.len()
        };
        let w_rest = wrap(ts, k + 1, nl) + tail;
        lemma_body_concat(st, t, w_rest, 0);
        lemma_body_concat(st, t, c_rest, 0);
        match body_from(st, t, 0) {
            Flow::Go(s) => {
                lemma_read_wrap(s, ts, k + 1, nl, tail);
            },
            _ => {},
        }
        if ll + t.len() > 70 {
            assert(wrap(ts, k, ll) + tail =~= seq!['\n'] + (t + w_rest));
            lemma_body_concat(st, seq!['\n'], t + w_rest, 0);
            assert(body_from(st, seq!['\n'], 0) == Flow::Go(st)) by {
                assert(body_from(st, seq!['\n'], 1) == Flow::Go(st));
            }
        } else {
            assert(wrap(ts, k, ll) + tail =~= t + w_rest);
        }
    }
}


/// A character the writer puts in the body: a digit, a tag or the terminator.
pub open spec fn item_char(c: char) -> bool {
    ('0' <= c <= '9') || c == 'b' || c == 'o' || c == '$' || c == '!'
}

/// Every character of `s` is one the writer puts in the body.
pub open spec fn all_items(s: Seq<char>) -> bool {
    forall|j: int| 0 <= j < s.len() ==> item_char(#[trigger] s[j])
}

proof fn lemma_token_items(n: nat, tag: char)
    requires
        item_char(tag),
    ensures
        all_items(run_token(n, tag)),
{
    lemma_decimal_digits(n);
    if n != 1 {
        let t = run_token(n, tag);
        assert(t == decimal(n).push(tag));
        assert forall|j: int| 0 <= j < t.len() implies item_char(#[trigger] t[j]) by {
            if j < decimal(n).len() {
                assert(t[j] == decimal(n)[j]);
            }
        }
    }
}

/// The items the writer emits hold only body characters.
proof fn lemma_tokens_items(l: Seq<Cell>, i: nat, row: int, col: int, min_x: int)
    ensures
        forall|m: int|
            0 <= m < tokens_from(l, i, row, col, min_x).len() ==> all_items(
                #[trigger] tokens_from(l, i, row, col, min_x)[m],
            ),
    decreases l.len() - i,
{
    let toks = tokens_from(l, i, row, col, min_x);
    if i >= l.len() {
        assert(toks == seq![seq!['!']]);
        assert(all_items(toks[0]));
    } else {
        let cy = l[i as int].0 as int;
        let cx = l[i as int].1 - min_x;
        let col1 = if cy != row {
            0
        } else {
            col
        };
        let len = run_end(l, i, 1);
        lemma_run_end(l, i, 1);
        let ta: Seq<Seq<char>> = if cy != row {
            seq![run_token((cy - row) as nat, '$')]
        } else {
            seq![]
        };
        let tb: Seq<Seq<char>> = if cx > col1 {
            seq![run_token((cx - col1) as nat, 'b')]
        } else {
            seq![]
        };
        let to = run_token(len, 'o');
        let rest_toks = tokens_from(l, i + len, cy, cx + len, min_x);
        assert(toks == ta + tb + seq![to] + rest_toks);
        lemma_tokens_items(l, i + len, cy, cx + len, min_x);
        lemma_token_items((cy - row) as nat, '$');
        lemma_token_items((cx - col1) as nat, 'b');
        lemma_token_items(len, 'o');
        let head = ta + tb + seq![to];
        assert forall|m: int| 0 <= m < toks.len() implies all_items(#[trigger] toks[m]) by {
            if m >= head.len() {
                assert(toks[m] == rest_toks[m - head.len()]);
            } else if m == head.len() - 1 {
                assert(toks[m] == to);
            } else if m < ta.len() {
                assert(toks[m] == ta[m]);
            } else {
                assert(toks[m] == tb[m - ta.len()]);
            }
        }
    }
}

/// Laid out in lines, the items hold only body characters and line breaks.
proof fn lemma_wrap_chars(ts: Seq<Seq<char>>, k: nat, ll: nat)
    requires
        k <= ts.len(),
        forall|m: int| 0 <= m < ts.len() ==> all_items(#[trigger] ts[m]),
    ensures
        forall|j: int|
            0 <= j < wrap(ts, k, ll).len() ==> #[trigger] wrap(ts, k, ll)[j] == '\n' || item_char(
                wrap(ts, k, ll)[j],
            ),
    decreases ts.len() - k,
{
    if k < ts.len() {
        let t = ts[k as int];
        assert(all_items(t));
        let nl = if ll + t.len() > 70 {
            t.len()
        } else {
            ll + t.len()
        };
        lemma_wrap_chars(ts, k + 1, nl);
        let rest = wrap(ts, k + 1, nl);
        let w = wrap(ts, k, ll);
        if ll + t.len() > 70 {
            assert(w == seq!['\n'] + t + rest);
            assert forall|j: int| 0 <= j < w.len() implies #[trigger] w[j] == '\n' || item_char(w[j]) by {
                if 1 <= j < 1 + t.len() {
                    assert(w[j] == t[j - 1]);
                } else if j >= 1 + t.len() {
                    assert(w[j] == rest[j - 1 - t.len()]);
                }
            }
        } else {
            assert(w == t + rest);
            assert forall|j: int| 0 <= j < w.len() implies #[trigger] w[j] == '\n' || item_char(w[j]) by {
                if j < t.len() {
                    assert(w[j] == t[j]);
                } else {
                    assert(w[j] == rest[j - t.len()]);
                }
            }
        }
    }
}

/// The body `to_rle` writes, with its final line break, is plain text.
proof fn lemma_body_plain(l: Seq<Cell>, row: int, min_x: int)
    ensures
        plain_or_break(wrap(tokens_from(l, 0, row, 0, min_x), 0, 0) + seq!['\n']),
{
    let ts = tokens_from(l, 0, row, 0, min_x);
    lemma_tokens_items(l, 0, row, 0, min_x);
    lemma_wrap_chars(ts, 0, 0);
    let w = wrap(ts, 0, 0);
    let b = w + seq!['\n'];
    assert forall|j: int| 0 <= j < b.len() implies #[trigger] b[j] == '\n' || plain(b[j]) by {
        if j < w.len() {
            assert(b[j] == w[j]);
            assert(w[j] == '\n' || item_char(w[j]));
        }
    }
}


proof fn lemma_skip_ws_len(s: Seq<char>)
    ensures
        skip_ws(s).len() <= s.len(),
    decreases s.len(),
{
    if s.len() > 0 && is_ws(s[0]) {
        lemma_skip_ws_len(s.drop_first());
    }
}

proof fn lemma_skip_ws_end_len(s: Seq<char>)
    ensures
        skip_ws_end(s).len() <= s.len(),
    decreases s.len(),
{
    if s.len() > 0 && is_ws(s.last()) {
        lemma_skip_ws_end_len(s.drop_last());
    }
}

/// Trimming never lengthens.
proof fn lemma_trim_len(s: Seq<char>)
    ensures
        trim(s).len() <= s.len(),
{
    lemma_skip_ws_len(s);
    lemma_skip_ws_end_len(skip_ws(s));
}

/// The header line `to_rle` writes for a `w` by `h` bounding box.
pub open spec fn header_line(w: nat, h: nat, rule: RuleSet) -> Seq<char> {
    "x = "@ + decimal(w) + ", y = "@ + decimal(h) + ", rule = "@ + bs_text(rule)
}

/// The header line holds no line break.
proof fn lemma_header_one_line(w: nat, h: nat, rule: RuleSet)
    ensures
        forall|j: int| 0 <= j < header_line(w, h, rule).len() ==> #[trigger] header_line(w, h, rule)[j] != '\n',
{
    reveal_strlit("x = ");
    reveal_strlit(", y = ");
    reveal_strlit(", rule = ");
    let bs = bs_text(rule);
    lemma_decimal_digits(w);
    lemma_decimal_digits(h);
    lemma_bs_text_chars(rule);
    let a = seq!['x', ' ', '=', ' '] + decimal(w);
    let b = seq![' ', 'y', ' ', '=', ' '] + decimal(h);
    let c = seq![' ', 'r', 'u', 'l', 'e', ' ', '=', ' '] + bs;
    let hl = header_line(w, h, rule);
    assert(hl =~= a + seq![','] + b + seq![','] + c);
    assert forall|j: int| 0 <= j < hl.len() implies #[trigger] hl[j] != '\n' by {
        if 4 <= j < a.len() {
            assert(hl[j] == decimal(w)[j - 4]);
        } else if a.len() + 6 <= j < a.len() + 1 + b.len() {
            assert(hl[j] == decimal(h)[j - a.len() - 6]);
        } else if j >= a.len() + 2 + b.len() + 8 {
            assert(hl[j] == bs[j - a.len() - 2 - b.len() - 8]);
            assert(rule_char(bs[j - a.len() - 2 - b.len() - 8]));
        }
    }
}

/// The header line is one line, is its own trim, starts with `x`, and its
/// fields give the rule back.
#[verifier::rlimit(80)]
#[verifier::spinoff_prover]
proof fn lemma_read_header_line(w: nat, h: nat, rule: RuleSet)
    requires
        !rule.birth@[0],
    ensures
        forall|j: int| 0 <= j < header_line(w, h, rule).len() ==> #[trigger] header_line(w, h, rule)[j] != '\n',
        header_line(w, h, rule).len() > 0,
        header_line(w, h, rule)[0] == 'x',
        trim(header_line(w, h, rule)) == header_line(w, h, rule),
        header_from(None, split(header_line(w, h, rule), ','), 0) == Ok::<
            Option<(Seq<bool>, Seq<bool>)>,
            Seq<char>,
        >(Some((rule.birth@, rule.survive@))),
{
    reveal_strlit("x = ");
    reveal_strlit(", y = ");
    reveal_strlit(", rule = ");
    reveal_strlit("rule");
    let bs = bs_text(rule);
    lemma_decimal_digits(w);
    lemma_decimal_digits(h);
    lemma_bs_text_chars(rule);
    let a = seq!['x', ' ', '=', ' '] + decimal(w);
    let b = seq![' ', 'y', ' ', '=', ' '] + decimal(h);
    let c = seq![' ', 'r', 'u', 'l', 'e', ' ', '=', ' '] + bs;
    let hl = header_line(w, h, rule);
    assert(hl =~= a + seq![','] + b + seq![','] + c);
    assert forall|j: int| 0 <= j < a.len() implies #[trigger] a[j] != ',' && a[j] != '\n' by {
        if j >= 4 {
            assert(a[j] == decimal(w)[j - 4]);
        }
    }
    assert forall|j: int| 0 <= j < b.len() implies #[trigger] b[j] != ',' && b[j] != '\n' by {
        if j >= 5 {
            assert(b[j] == decimal(h)[j - 5]);
        }
    }
    assert forall|j: int| 0 <= j < c.len() implies #[trigger] c[j] != ',' && c[j] != '\n' by {
        if j >= 8 {
            assert(c[j] == bs[j - 8]);
            assert(rule_char(bs[j - 8]));
        }
    }
    lemma_header_one_line(w, h, rule);
    // The three fields.
    let r1 = b + seq![','] + c;
    lemma_find_is(hl, ',', a.len() as int);
    assert(hl.take(a.len() as int) =~= a);
    assert(hl.skip(a.len() + 1 as int) =~= r1);
    lemma_find_is(r1, ',', b.len() as int);
    assert(r1.take(b.len() as int) =~= b);
    assert(r1.skip(b.len() + 1 as int) =~= c);
    lemma_find_is(c, ',', c.len() as int);
    assert(split(c, ',') == seq![c]);
    assert(split(r1, ',') == seq![b] + seq![c]);
    assert(split(hl, ',') == seq![a] + (seq![b] + seq![c]));
    let fs = split(hl, ',');
    assert(fs =~= seq![a, b, c]);
    // `x = ..` and `y = ..` leave the rule alone.
    lemma_find_is(a, '=', 2);
    lemma_trim_len(a.take(2));
    assert(trim(a.take(2)) != "rule"@);
    assert(header_field(None, a) == Ok::<Option<(Seq<bool>, Seq<bool>)>, Seq<char>>(None));
    lemma_find_is(b, '=', 3);
    lemma_trim_len(b.take(3));
    assert(trim(b.take(3)) != "rule"@);
    assert(header_field(None, b) == Ok::<Option<(Seq<bool>, Seq<bool>)>, Seq<char>>(None));
    // `rule = ..` sets it.
    lemma_find_is(c, '=', 6);
    let key = c.take(6);
    assert(key =~= seq![' ', 'r', 'u', 'l', 'e', ' ']);
    assert(skip_ws(key) == skip_ws(key.drop_first()));
    assert(key.drop_first() =~= seq!['r', 'u', 'l', 'e', ' ']);
    assert(skip_ws(key.drop_first()) == key.drop_first());
    assert(skip_ws_end(key.drop_first()) == skip_ws_end(key.drop_first().drop_last()));
    assert(key.drop_first().drop_last() =~= seq!['r', 'u', 'l', 'e']);
    assert(skip_ws_end(key.drop_first().drop_last()) == key.drop_first().drop_last());
    assert(trim(key) =~= "rule"@);
    let value = c.skip(7);
    assert(value =~= seq![' '] + bs);
    assert(value.drop_first() =~= bs);
    assert(skip_ws(value) == skip_ws(bs));
    assert(trim(value) == trim(bs));
    assert(rule_text_spec(value) == rule_text_spec(bs));
    lemma_rule_text_round_trip(rule);
    let t = (rule.birth@, rule.survive@);
    assert(header_field(None, c) == Ok::<Option<(Seq<bool>, Seq<bool>)>, Seq<char>>(Some(t)));
    assert(header_from(Some(t), fs, 3) == Ok::<Option<(Seq<bool>, Seq<bool>)>, Seq<char>>(Some(t)));
    assert(header_from(None, fs, 2) == header_from(Some(t), fs, 3));
    assert(header_from(None, fs, 1) == header_from(None, fs, 2));
    assert(header_from(None, fs, 0) == header_from(None, fs, 1));
    // Nothing to trim at either end.
    assert(hl[0] == 'x');
    assert(skip_ws(hl) == hl);
    assert(hl.last() == bs.last());
    assert(rule_char(bs[bs.len() - 1]));
    assert(skip_ws_end(hl) == hl);
}


/// What `parse` gives back of the text `to_rle` writes for the row-major
/// cells `l`: the cells, placed relative to the bounding box's top-left corner.
pub open spec fn read_back(l: Seq<Cell>) -> Seq<(i32, i32)> {
    if l.len() == 0 {
        Seq::empty()
    } else {
        placed_upto(l, l.len(), min_col(l, l.len()), l[0].0 as int)
    }
}

/// Reading a line that is a header, then a body that `to_rle` could have
/// written, gives what the body gives with the header's rule.
proof fn lemma_read_header_then_body(w: nat, h: nat, rule: RuleSet, body: Seq<char>)
    requires
        !rule.birth@[0],
        plain_or_break(body),
    ensures
        match body_from(
            ReadState { rule: Some((rule.birth@, rule.survive@)), in_body: true, ..start_state() },
            body,
            0,
        ) {
            Flow::Stop(s) => parse_spec(header_line(w, h, rule) + seq!['\n'] + body) == Ok::<
                ReadState,
                Seq<char>,
            >(s),
            _ => true,
        },
{
    let hl = header_line(w, h, rule);
    let text = hl + seq!['\n'] + body;
    lemma_read_header_line(w, h, rule);
    lemma_find_is(text, '\n', hl.len() as int);
    assert(text.take(hl.len() as int) =~= hl);
    assert(text.skip(hl.len() + 1 as int) =~= body);
    let lines = split(text, '\n');
    assert(lines == seq![hl] + split(body, '\n'));
    assert(lines[0] == hl);
    assert(lines.skip(1) =~= split(body, '\n'));
    let st1 = ReadState { rule: Some((rule.birth@, rule.survive@)), ..start_state() };
    assert(line_step(start_state(), hl, 0) == Flow::Go(st1));
    assert(lines_from(start_state(), lines, 0) == lines_from(st1, lines, 1));
    lemma_lines_stream(st1, lines, 1, body);
}

/// Reading back what `to_rle` writes for the row-major cells `l` gives the
/// rule and the cells, shifted so that the bounding box starts at the
/// origin. The reader refuses B0 rules and patterns beyond its limits, so
/// those are left out.
pub proof fn lemma_rle_text_reads_back(l: Seq<Cell>, rule: RuleSet)
    requires
        !rule.birth@[0],
        strictly_sorted(l),
        l.len() > 0 ==> fits_reader(l, min_col(l, l.len()), l[0].0 as int),
    ensures
        parse_spec(rle_text_of(l, rule)) matches Ok(st) && st.rule == Some((rule.birth@, rule.survive@))
            && st.cells == read_back(l),
{
    reveal_strlit("\n");
    let tables = (rule.birth@, rule.survive@);
    let st_t = ReadState { rule: Some(tables), in_body: true, ..start_state() };
    if l.len() == 0 {
        reveal_strlit("x = 0, y = 0, rule = ");
        reveal_strlit("\n!\n");
        reveal_strlit("x = ");
        reveal_strlit(", y = ");
        reveal_strlit(", rule = ");
        assert(decimal(0) == seq!['0']);
        let body = seq!['!', '\n'];
        assert(rle_text_of(l, rule) =~= header_line(0, 0, rule) + seq!['\n'] + body);
        assert(plain_or_break(body)) by {
            assert(plain('!'));
        }
        assert(body_from(st_t, body, 0) == Flow::Stop(st_t)) by {
            assert(body_char(st_t, '!') == Flow::Stop(st_t));
        }
        lemma_read_header_then_body(0, 0, rule, body);
        assert(read_back(l) =~= Seq::<(i32, i32)>::empty());
    } else {
        let n = l.len();
        let min_x = min_col(l, n);
        let max_x = max_col(l, n);
        let min_y = l[0].0 as int;
        let max_y = l.last().0 as int;
        let w = (max_x - min_x + 1) as nat;
        let h = (max_y - min_y + 1) as nat;
        let ts = tokens_from(l, 0, min_y, 0, min_x);
        let body = wrap(ts, 0, 0) + seq!['\n'];
        assert(rle_text_of(l, rule) =~= header_line(w, h, rule) + seq!['\n'] + body);
        lemma_body_plain(l, min_y, min_x);
        lemma_read_wrap(st_t, ts, 0, 0, seq!['\n']);
        assert(ts.skip(0) =~= ts);
        assert(placed_upto(l, 0, min_x, min_y) =~= Seq::<(i32, i32)>::empty());
        lemma_read_tokens(st_t, l, 0, min_y, 0, min_x, min_y, seq!['\n']);
        lemma_read_header_then_body(w, h, rule, body);
    }
}


/// `(dx, dy)` is the top-left corner of the bounding box of `s`: no cell lies
/// left of or above it, and some cell lies on each of its two edges.
pub open spec fn box_corner(s: Set<Cell>, dx: int, dy: int) -> bool {
    &&& forall|c: Cell| #[trigger] s.contains(c) ==> dx <= c.0 && dy <= c.1
    &&& !s.is_empty() ==> exists|c: Cell| #[trigger] s.contains(c) && c.0 == dx
    &&& !s.is_empty() ==> exists|c: Cell| #[trigger] s.contains(c) && c.1 == dy
}

/// The cells of `s` moved by `(-dx, -dy)`.
pub open spec fn shifted(s: Set<Cell>, dx: int, dy: int) -> Set<(i32, i32)> {
    s.map(|c: Cell| ((c.0 - dx) as i32, (c.1 - dy) as i32))
}

/// The smallest column among `l[..k]` is that of one of them.
proof fn lemma_min_col_attained(l: Seq<Cell>, k: nat)
    requires
        1 <= k <= l.len(),
    ensures
        exists|m: int| 0 <= m < k && (#[trigger] l[m]).1 == min_col(l, k),
    decreases k,
{
    if k == 1 {
        assert(l[0].1 == min_col(l, k));
    } else if l[k - 1].1 < min_col(l, (k - 1) as nat) {
        assert(l[k - 1].1 == min_col(l, k));
    } else {
        lemma_min_col_attained(l, (k - 1) as nat);
        let m = choose|m: int| 0 <= m < k - 1 && (#[trigger] l[m]).1 == min_col(l, (k - 1) as nat);
        assert(l[m].1 == min_col(l, k));
    }
}

/// Text that `to_rle` writes for `cells` under `rule` reads back, with
/// `parse`, as the same rule and the same cells, moved so that the bounding
/// box starts at the origin. The reader refuses B0 rules, more than
/// `MAX_CELLS` cells, and boxes wider or taller than it allows, and a cell
/// listed twice is written as two cells side by side; those inputs are left
/// out.
pub proof fn lemma_rle_round_trip(cells: Seq<Cell>, rule: RuleSet)
    requires
        !rule.birth@[0],
        cells.no_duplicates(),
        cells.len() <= MAX_CELLS,
        forall|c: Cell, d: Cell|
            cells.contains(c) && cells.contains(d) ==> c.0 - d.0 < MAX_EXTENT && c.1 - d.1 <= MAX_EXTENT,
    ensures
        parse_spec(rle_text_of(row_major(cells), rule)) matches Ok(st) && st.rule == Some(
            (rule.birth@, rule.survive@),
        ) && exists|dx: int, dy: int|
            box_corner(cells.to_set(), dx, dy) && st.cells.to_set() == shifted(cells.to_set(), dx, dy),
{
    let s = cells.to_set();
    lemma_row_major_distinct(cells);
    let l = row_major(cells);
    let n = l.len();
    // Every entry of the listing is a cell of `s`, swapped, and back.
    assert forall|m: int| 0 <= m < n implies s.contains(swap(#[trigger] l[m])) by {
        assert(l.to_set().contains(l[m]));
        let c = choose|c: Cell| s.contains(c) && l[m] == swap(c);
        assert(swap(l[m]) == c);
    }
    assert forall|c: Cell| s.contains(c) implies exists|m: int| 0 <= m < n && #[trigger] l[m] == swap(c) by {
        assert(s.map(|c: Cell| swap(c)).contains(swap(c)));
        assert(l.to_set().contains(swap(c)));
    }
    if n == 0 {
        lemma_rle_text_reads_back(l, rule);
        assert(s =~= Set::<Cell>::empty()) by {
            assert forall|c: Cell| !s.contains(c) by {
                if s.contains(c) {
                    let m = choose|m: int| 0 <= m < n && #[trigger] l[m] == swap(c);
                }
            }
        }
        let st = parse_spec(rle_text_of(l, rule))->Ok_0;
        assert(st.cells.to_set() =~= shifted(s, 0, 0));
        assert(box_corner(s, 0, 0));
    } else {
        let min_x = min_col(l, n);
        let min_y = l[0].0 as int;
        lemma_min_col_attained(l, n);
        crate::rle::lemma_min_max_col(l, n);
        let k = choose|m: int| 0 <= m < n && (#[trigger] l[m]).1 == min_x;
        assert(fits_reader(l, min_x, min_y)) by {
            assert forall|m: int| 0 <= m < n implies min_x <= (#[trigger] l[m]).1 && l[m].1 - min_x < MAX_EXTENT by {
                assert(s.contains(swap(l[m])) && s.contains(swap(l[k])));
                assert(cells.contains(swap(l[m])) && cells.contains(swap(l[k])));
            }
            assert forall|m: int| 0 <= m < n implies min_y <= (#[trigger] l[m]).0 && l[m].0 - min_y <= MAX_EXTENT by {
                assert(s.contains(swap(l[m])) && s.contains(swap(l[0])));
                assert(cells.contains(swap(l[m])) && cells.contains(swap(l[0])));
                if m > 0 {
                    assert(lex_lt(l[0], l[m]));
                }
            }
        }
        lemma_rle_text_reads_back(l, rule);
        let st = parse_spec(rle_text_of(l, rule))->Ok_0;
        assert(st.cells == read_back(l));
        let f = |c: Cell| ((c.0 - min_x) as i32, (c.1 - min_y) as i32);
        assert forall|p: (i32, i32)| st.cells.to_set().contains(p) <==> shifted(s, min_x, min_y).contains(p) by {
            if st.cells.to_set().contains(p) {
                assert(st.cells.contains(p));
                let m = choose|m: int| 0 <= m < st.cells.len() && st.cells[m] == p;
                assert(st.cells[m] == placed(l[m], min_x, min_y));
                assert(s.contains(swap(l[m])));
                assert(f(swap(l[m])) == p);
            }
            if shifted(s, min_x, min_y).contains(p) {
                let c = choose|c: Cell| s.contains(c) && f(c) == p;
                let m = choose|m: int| 0 <= m < n && #[trigger] l[m] == swap(c);
                assert(st.cells[m] == placed(l[m], min_x, min_y));
                assert(st.cells.to_set().contains(st.cells[m]));
            }
        }
        assert(st.cells.to_set() =~= shifted(s, min_x, min_y));
        assert(box_corner(s, min_x, min_y)) by {
            assert forall|c: Cell| #[trigger] s.contains(c) implies min_x <= c.0 && min_y <= c.1 by {
                let m = choose|m: int| 0 <= m < n && #[trigger] l[m] == swap(c);
                if m > 0 {
                    assert(lex_lt(l[0], l[m]));
                }
            }
            assert(s.contains(swap(l[k])) && swap(l[k]).0 == min_x);
            assert(s.contains(swap(l[0])) && swap(l[0]).1 == min_y);
        }
    }
}


/// Every item the writer emits for the row-major cells `l[i..]` is short:
/// its count has at most 21 digits.
proof fn lemma_tokens_short(l: Seq<Cell>, i: nat, row: int, col: int, min_x: int)
    requires
        sorted(l),
        i <= l.len(),
        i64::MIN <= row,
        0 <= col,
        i64::MIN <= min_x,
        forall|m: int| 0 <= m < l.len() ==> min_x <= (#[trigger] l[m]).1,
        i < l.len() ==> row <= l[i as int].0,
    ensures
        forall|m: int|
            0 <= m < tokens_from(l, i, row, col, min_x).len() ==> (#[trigger] tokens_from(
                l,
                i,
                row,
                col,
                min_x,
            )[m]).len() <= 22,
    decreases l.len() - i,
{
    let toks = tokens_from(l, i, row, col, min_x);
    reveal_with_fuel(pow10, 22);
    assert(pow10(21) == 1000000000000000000000nat);
    if i >= l.len() {
        assert(toks == seq![seq!['!']]);
    } else {
        let cy = l[i as int].0 as int;
        let cx = l[i as int].1 - min_x;
        let col1 = if cy != row {
            0
        } else {
            col
        };
        let len = run_end(l, i, 1);
        lemma_run_end(l, i, 1);
        crate::rle::lemma_run_adjacent(l, i, 1);
        let k_last: int = len - 1;
        assert(l[i + k_last].1 == l[i as int].1 + k_last);
        let ta: Seq<Seq<char>> = if cy != row {
            seq![run_token((cy - row) as nat, '$')]
        } else {
            seq![]
        };
        let tb: Seq<Seq<char>> = if cx > col1 {
            seq![run_token((cx - col1) as nat, 'b')]
        } else {
            seq![]
        };
        let to = run_token(len, 'o');
        let rest_toks = tokens_from(l, i + len, cy, cx + len, min_x);
        assert(toks == ta + tb + seq![to] + rest_toks);
        if cy != row {
            lemma_decimal_bound((cy - row) as nat, 21);
        }
        if cx > col1 {
            lemma_decimal_bound((cx - col1) as nat, 21);
        }
        lemma_decimal_bound(len, 21);
        if i + len < l.len() {
            assert(lex_le(l[i as int], l[(i + len) as int]));
        }
        lemma_tokens_short(l, i + len, cy, cx + len, min_x);
        let head = ta + tb + seq![to];
        assert forall|m: int| 0 <= m < toks.len() implies (#[trigger] toks[m]).len() <= 22 by {
            if m >= head.len() {
                assert(toks[m] == rest_toks[m - head.len()]);
            } else if m == head.len() - 1 {
                assert(toks[m] == to);
            } else if m < ta.len() {
                assert(toks[m] == ta[m]);
            } else {
                assert(toks[m] == tb[m - ta.len()]);
            }
        }
    }
}

/// Laid out after `pre` (which holds `ll` characters and no line break),
/// the items make lines of at most 70 characters.
proof fn lemma_wrap_lines(ts: Seq<Seq<char>>, k: nat, pre: Seq<char>)
    requires
        k <= ts.len(),
        pre.len() <= 70,
        forall|j: int| 0 <= j < pre.len() ==> #[trigger] pre[j] != '\n',
        forall|m: int| 0 <= m < ts.len() ==> (#[trigger] ts[m]).len() <= 70 && all_items(ts[m]),
    ensures
        forall|p: int|
            0 <= p < split(pre + wrap(ts, k, pre.len()) + seq!['\n'], '\n').len() ==> (
            #[trigger] split(pre + wrap(ts, k, pre.len()) + seq!['\n'], '\n')[p]).len() <= 70,
    decreases ts.len() - k,
{
    let text = pre + wrap(ts, k, pre.len()) + seq!['\n'];
    if k == ts.len() {
        assert(text =~= pre + seq!['\n']);
        lemma_find_is(text, '\n', pre.len() as int);
        let rest = text.skip(pre.len() + 1 as int);
        assert(rest =~= Seq::<char>::empty());
        lemma_find_is(rest, '\n', 0);
        assert(text.take(pre.len() as int) =~= pre);
        assert(split(rest, '\n') == seq![rest]);
        assert(split(text, '\n') == seq![text.take(pre.len() as int)] + split(rest, '\n'));
    } else {
        let t = ts[k as int];
        assert(all_items(t));
        assert forall|j: int| 0 <= j < t.len() implies #[trigger] t[j] != '\n' by {
            assert(item_char(t[j]));
        }
        if pre.len() + t.len() > 70 {
            let after = t + wrap(ts, k + 1, t.len()) + seq!['\n'];
            assert(text =~= pre + seq!['\n'] + after);
            lemma_find_is(text, '\n', pre.len() as int);
            assert(text.take(pre.len() as int) =~= pre);
            assert(text.skip(pre.len() + 1 as int) =~= after);
            lemma_wrap_lines(ts, k + 1, t);
            assert(split(text, '\n') == seq![pre] + split(after, '\n'));
            assert forall|p: int| 0 <= p < split(text, '\n').len() implies (#[trigger] split(text, '\n')[p]).len() <= 70 by {
                if p > 0 {
                    assert(split(text, '\n')[p] == split(after, '\n')[p - 1]);
                }
            }
        } else {
            let pre2 = pre + t;
            assert forall|j: int| 0 <= j < pre2.len() implies #[trigger] pre2[j] != '\n' by {
                if j >= pre.len() {
                    assert(pre2[j] == t[j - pre.len()]);
                }
            }
            lemma_wrap_lines(ts, k + 1, pre2);
            assert(text =~= pre2 + wrap(ts, k + 1, pre2.len()) + seq!['\n']);
        }
    }
}

/// `to_rle` wraps its output at 70 columns: every line after the header
/// holds at most 70 characters.
pub proof fn lemma_rle_lines_fit(cells: Seq<Cell>, rule: RuleSet)
    ensures
        forall|j: int|
            1 <= j < split(rle_text_of(row_major(cells), rule), '\n').len() ==> (
            #[trigger] split(rle_text_of(row_major(cells), rule), '\n')[j]).len() <= 70,
{
    reveal_strlit("\n");
    lemma_row_major(cells);
    let l = row_major(cells);
    let text = rle_text_of(l, rule);
    if l.len() == 0 {
        reveal_strlit("x = 0, y = 0, rule = ");
        reveal_strlit("\n!\n");
        reveal_strlit("x = ");
        reveal_strlit(", y = ");
        reveal_strlit(", rule = ");
        assert(decimal(0) == seq!['0']);
        let body = seq!['!'];
        let hl = header_line(0, 0, rule);
        assert(text =~= hl + seq!['\n'] + body + seq!['\n']);
        lemma_header_one_line(0, 0, rule);
        lemma_find_is(text, '\n', hl.len() as int);
        let after = text.skip(hl.len() + 1 as int);
        assert(after =~= body + seq!['\n']);
        lemma_find_is(after, '\n', 1);
        let last = after.skip(2);
        assert(last =~= Seq::<char>::empty());
        lemma_find_is(last, '\n', 0);
        assert(split(last, '\n') == seq![last]);
        assert(split(after, '\n') == seq![after.take(1)] + split(last, '\n'));
        assert(split(text, '\n') == seq![text.take(hl.len() as int)] + split(after, '\n'));
        assert(after.take(1).len() == 1);
    } else {
        let n = l.len();
        let min_x = min_col(l, n);
        let max_x = max_col(l, n);
        let min_y = l[0].0 as int;
        let max_y = l.last().0 as int;
        let w = (max_x - min_x + 1) as nat;
        let h = (max_y - min_y + 1) as nat;
        let ts = tokens_from(l, 0, min_y, 0, min_x);
        let hl = header_line(w, h, rule);
        let body = wrap(ts, 0, 0) + seq!['\n'];
        assert(text =~= hl + seq!['\n'] + body);
        crate::rle::lemma_min_max_col(l, n);
        lemma_tokens_short(l, 0, min_y, 0, min_x);
        lemma_tokens_items(l, 0, min_y, 0, min_x);
        lemma_wrap_lines(ts, 0, Seq::empty());
        assert(Seq::<char>::empty() + wrap(ts, 0, 0) + seq!['\n'] =~= body);
        lemma_header_one_line(w, h, rule);
        lemma_find_is(text, '\n', hl.len() as int);
        assert(text.skip(hl.len() + 1 as int) =~= body);
        assert(split(text, '\n') == seq![text.take(hl.len() as int)] + split(body, '\n'));
        assert forall|j: int| 1 <= j < split(text, '\n').len() implies (#[trigger] split(text, '\n')[j]).len() <= 70 by {
            assert(split(text, '\n')[j] == split(body, '\n')[j - 1]);
        }
    }
}


/// The row-major listing of cells without repeats is strictly sorted, one
/// entry per cell.
proof fn lemma_row_major_distinct(cells: Seq<Cell>)
    requires
        cells.no_duplicates(),
    ensures
        strictly_sorted(row_major(cells)),
        row_major(cells).len() == cells.len(),
        row_major(cells).to_set() == cells.to_set().map(|c: Cell| swap(c)),
{
    lemma_row_major(cells);
    let l = row_major(cells);
    let sw = cells.map_values(|c: Cell| swap(c));
    assert(vstd::relations::injective(|c: Cell| swap(c))) by {
        assert forall|a: Cell, b: Cell| #[trigger] swap(a) == #[trigger] swap(b) implies a == b by {}
    }
    cells.lemma_no_duplicates_injective(|c: Cell| swap(c));
    sw.lemma_multiset_has_no_duplicates();
    assert forall|x: Cell| l.to_multiset().contains(x) implies l.to_multiset().count(x) == 1 by {}
    l.lemma_multiset_has_no_duplicates_conv();
    assert(strictly_sorted(l)) by {
        assert forall|i: int, j: int| 0 <= i < j < l.len() implies lex_lt(#[trigger] l[i], #[trigger] l[j]) by {
            assert(lex_le(l[i], l[j]));
        }
    }
    vstd::seq_lib::to_multiset_len(l);
    vstd::seq_lib::to_multiset_len(sw);
    assert forall|x: Cell| l.to_set().contains(x) <==> cells.to_set().map(|c: Cell| swap(c)).contains(x) by {
        vstd::seq_lib::to_multiset_contains(l, x);
        vstd::seq_lib::to_multiset_contains(sw, x);
        if sw.contains(x) {
            let j = choose|j: int| 0 <= j < sw.len() && sw[j] == x;
            assert(cells.contains(cells[j]));
            assert(cells.to_set().contains(cells[j]));
        }
        if cells.to_set().map(|c: Cell| swap(c)).contains(x) {
            let c = choose|c: Cell| cells.to_set().contains(c) && swap(c) == x;
            let j = choose|j: int| 0 <= j < cells.len() && cells[j] == c;
            assert(sw[j] == x);
        }
    }
    assert(l.to_set() =~= cells.to_set().map(|c: Cell| swap(c)));
}


/// The largest column among `l[..k]` is that of one of them.
proof fn lemma_max_col_attained(l: Seq<Cell>, k: nat)
    requires
        1 <= k <= l.len(),
    ensures
        exists|m: int| 0 <= m < k && (#[trigger] l[m]).1 == max_col(l, k),
    decreases k,
{
    if k == 1 {
        assert(l[0].1 == max_col(l, k));
    } else if l[k - 1].1 > max_col(l, (k - 1) as nat) {
        assert(l[k - 1].1 == max_col(l, k));
    } else {
        lemma_max_col_attained(l, (k - 1) as nat);
        let m = choose|m: int| 0 <= m < k - 1 && (#[trigger] l[m]).1 == max_col(l, (k - 1) as nat);
        assert(l[m].1 == max_col(l, k));
    }
}

/// The `x` coordinates of `cells` run from `lo` to `hi`: both occur, and
/// every one lies between them.
pub open spec fn x_span(cells: Seq<Cell>, lo: int, hi: int) -> bool {
    &&& exists|i: int| 0 <= i < cells.len() && (#[trigger] cells[i]).0 == lo
    &&& exists|i: int| 0 <= i < cells.len() && (#[trigger] cells[i]).0 == hi
    &&& forall|i: int| 0 <= i < cells.len() ==> lo <= (#[trigger] cells[i]).0 <= hi
}

/// The `y` coordinates of `cells` run from `lo` to `hi`.
pub open spec fn y_span(cells: Seq<Cell>, lo: int, hi: int) -> bool {
    &&& exists|i: int| 0 <= i < cells.len() && (#[trigger] cells[i]).1 == lo
    &&& exists|i: int| 0 <= i < cells.len() && (#[trigger] cells[i]).1 == hi
    &&& forall|i: int| 0 <= i < cells.len() ==> lo <= (#[trigger] cells[i]).1 <= hi
}

/// The header `to_rle` writes gives the pattern's size: `x` is the width of
/// the cells' bounding box (largest column minus smallest, plus one) and `y`
/// its height (largest row minus smallest, plus one); an empty pattern is
/// written as `x = 0, y = 0`. The rule follows.
pub proof fn lemma_rle_header_size(cells: Seq<Cell>, rule: RuleSet, x0: int, x1: int, y0: int, y1: int)
    requires
        cells.len() > 0,
        x_span(cells, x0, x1),
        y_span(cells, y0, y1),
    ensures
        ({
            let head = "x = "@ + decimal((x1 - x0 + 1) as nat) + ", y = "@ + decimal((y1 - y0 + 1) as nat)
                + ", rule = "@ + bs_text(rule) + "\n"@;
            rle_text_of(row_major(cells), rule).take(head.len() as int) == head
        }),
{
    let l = row_major(cells);
    lemma_row_major(cells);
    let sw = cells.map_values(|c: Cell| swap(c));
    // `l` holds exactly the swapped cells.
    assert forall|i: int| 0 <= i < cells.len() implies l.contains(swap(#[trigger] cells[i])) by {
        assert(sw[i] == swap(cells[i]));
        vstd::seq_lib::to_multiset_contains(sw, swap(cells[i]));
        vstd::seq_lib::to_multiset_contains(l, swap(cells[i]));
    }
    assert forall|m: int| 0 <= m < l.len() implies exists|i: int|
        0 <= i < cells.len() && #[trigger] l[m] == swap(cells[i]) by {
        assert(l.contains(l[m]));
        vstd::seq_lib::to_multiset_contains(sw, l[m]);
        vstd::seq_lib::to_multiset_contains(l, l[m]);
        let j = choose|j: int| 0 <= j < sw.len() && sw[j] == l[m];
        assert(l[m] == swap(cells[j]));
    }
    vstd::seq_lib::to_multiset_len(sw);
    vstd::seq_lib::to_multiset_len(l);
    assert(l.len() == cells.len());
    let n = l.len();
    crate::rle::lemma_min_max_col(l, n);
    lemma_min_col_attained(l, n);
    lemma_max_col_attained(l, n);
    let ix0 = choose|i: int| 0 <= i < cells.len() && (#[trigger] cells[i]).0 == x0;
    let ix1 = choose|i: int| 0 <= i < cells.len() && (#[trigger] cells[i]).0 == x1;
    let iy0 = choose|i: int| 0 <= i < cells.len() && (#[trigger] cells[i]).1 == y0;
    let iy1 = choose|i: int| 0 <= i < cells.len() && (#[trigger] cells[i]).1 == y1;
    // Width.
    let ma = choose|m: int| 0 <= m < n && (#[trigger] l[m]).1 == min_col(l, n);
    let ja = choose|i: int| 0 <= i < cells.len() && #[trigger] l[ma] == swap(cells[i]);
    assert(cells[ja].0 >= x0);
    assert(l.contains(swap(cells[ix0])));
    let mb = choose|m: int| 0 <= m < n && l[m] == swap(cells[ix0]);
    assert(min_col(l, n) <= l[mb].1);
    assert(min_col(l, n) == x0);
    let mc = choose|m: int| 0 <= m < n && (#[trigger] l[m]).1 == max_col(l, n);
    let jc = choose|i: int| 0 <= i < cells.len() && #[trigger] l[mc] == swap(cells[i]);
    assert(cells[jc].0 <= x1);
    assert(l.contains(swap(cells[ix1])));
    let md = choose|m: int| 0 <= m < n && l[m] == swap(cells[ix1]);
    assert(l[md].1 <= max_col(l, n));
    assert(max_col(l, n) == x1);
    // Height: the first and last cells in row-major order are on the top
    // and bottom rows.
    let j0 = choose|i: int| 0 <= i < cells.len() && #[trigger] l[0] == swap(cells[i]);
    assert(l[0].0 >= y0);
    assert(l.contains(swap(cells[iy0])));
    let me = choose|m: int| 0 <= m < n && l[m] == swap(cells[iy0]);
    if me > 0 {
        assert(lex_le(l[0], l[me]));
    }
    assert(l[0].0 == y0);
    let jl = choose|i: int| 0 <= i < cells.len() && #[trigger] l[n - 1] == swap(cells[i]);
    assert(l.last().0 <= y1);
    assert(l.contains(swap(cells[iy1])));
    let mf = choose|m: int| 0 <= m < n && l[m] == swap(cells[iy1]);
    if mf < n - 1 {
        assert(lex_le(l[mf], l[n - 1]));
    }
    assert(l.last().0 == y1);
    let head = "x = "@ + decimal((x1 - x0 + 1) as nat) + ", y = "@ + decimal((y1 - y0 + 1) as nat)
        + ", rule = "@ + bs_text(rule) + "\n"@;
    let rest = wrap(tokens_from(l, 0, y0, 0, x0), 0, 0) + "\n"@;
    assert(rle_text_of(l, rule) == head + rest);
    assert((head + rest).take(head.len() as int) =~= head);
}

} // verus!
