//! Reader/writer for Golly's two-state RLE pattern format: optional `#` comment
//! lines, an optional `x = .., y = .., rule = ..` header, then a `b`/`o`/`$`
//! run-length body ended by `!`.
use vstd::prelude::*;
use crate::cellset::{Cell, lex_le, lex_lt, sort_cells, sorted, strictly_sorted};
use crate::rules::{RuleSet, bs_text, rule_from_chars, rule_text_spec};
use crate::roundtrip::{lemma_rle_header_size, x_span, y_span};
use crate::text::{
    chars_of, decimal, decimal_chars, find, find_from, lemma_decimal_bound, pow10, is_ws, is_ws_char, lemma_split_len, push_char, push_chars, push_decimal,
    span_is,
    split, trim, trim_span,
};

verus! {

broadcast use vstd::string::group_string_axioms;

/// Bounds hostile or accidental input (`99999999999o!`, a megabyte of `$`).
pub const MAX_EXTENT: i64 = 1048576;

pub const MAX_CELLS: usize = 1048576;

#[derive(Debug)]
pub struct Rle {
    pub cells: Vec<(i32, i32)>,
    /// From the header's `rule =` field; `None` when the header has no rule
    /// (Golly then assumes B3/S23) or there is no header at all.
    pub rule: Option<RuleSet>,
}

/// Where the reader stands between two characters.
pub struct ReadState {
    /// Live cells read so far, in reading order.
    pub cells: Seq<(i32, i32)>,
    /// Birth and survival tables of the header's rule, if one was read.
    pub rule: Option<(Seq<bool>, Seq<bool>)>,
    /// Column of the next cell.
    pub x: int,
    /// Row of the next cell.
    pub y: int,
    /// Run count read so far for the next tag (0 when none).
    pub count: int,
    /// Whether the body has started (a later `x` line is then body text).
    pub in_body: bool,
}

/// Outcome of reading a character or a line.
pub enum Flow {
    /// Go on with this state.
    Go(ReadState),
    /// The `!` terminator was read: the pattern is complete.
    Stop(ReadState),
    /// Rejected, with this message.
    Fail(Seq<char>),
}

pub open spec fn start_state() -> ReadState {
    ReadState { cells: Seq::empty(), rule: None, x: 0, y: 0, count: 0, in_body: false }
}

/// The cells of a run of `n` live cells starting at column `x` of row `y`.
pub open spec fn run_of(x: int, y: int, n: int) -> Seq<(i32, i32)> {
    Seq::new(n as nat, |k: int| ((x + k) as i32, y as i32))
}

pub open spec fn msg_count() -> Seq<char> {
    "run count too large"@
}

pub open spec fn msg_size() -> Seq<char> {
    "pattern too large"@
}

pub open spec fn msg_unexpected(c: char) -> Seq<char> {
    "unexpected character '"@ + seq![c] + "'"@
}

pub open spec fn msg_missing() -> Seq<char> {
    "missing terminating '!'"@
}

/// `msg` prefixed with its 1-based line number.
pub open spec fn at_line(idx: nat, msg: Seq<char>) -> Seq<char> {
    "line "@ + decimal(idx + 1) + ": "@ + msg
}

/// The state after a `b`, `o` or `$` tag, before the extent check.
pub open spec fn after_tag(st: ReadState, c: char) -> Option<ReadState> {
    let n = if st.count >= 1 {
        st.count
    } else {
        1
    };
    if c == 'b' {
        Some(ReadState { x: st.x + n, count: 0, ..st })
    } else if c == '$' {
        Some(ReadState { x: 0, y: st.y + n, count: 0, ..st })
    } else if st.x + n > MAX_EXTENT || st.cells.len() + n > MAX_CELLS {
        None
    } else {
        Some(ReadState { cells: st.cells + run_of(st.x, st.y, n), x: st.x + n, count: 0, ..st })
    }
}

/// Reading one character of the body.
pub open spec fn body_char(st: ReadState, c: char) -> Flow {
    if '0' <= c <= '9' {
        let count = st.count * 10 + ((c as u32) - ('0' as u32));
        if count > MAX_EXTENT {
            Flow::Fail(msg_count())
        } else {
            Flow::Go(ReadState { count, ..st })
        }
    } else if c == 'b' || c == 'o' || c == '$' {
        match after_tag(st, c) {
            None => Flow::Fail(msg_size()),
            Some(next) => if next.x > MAX_EXTENT || next.y > MAX_EXTENT {
                Flow::Fail(msg_size())
            } else {
                Flow::Go(next)
            },
        }
    } else if c == '!' {
        Flow::Stop(st)
    } else if is_ws(c) {
        Flow::Go(st)
    } else {
        Flow::Fail(msg_unexpected(c))
    }
}

/// Reading the body characters `line[i..]`.
pub open spec fn body_from(st: ReadState, line: Seq<char>, i: nat) -> Flow
    decreases line.len() - i,
{
    if i >= line.len() {
        Flow::Go(st)
    } else {
        match body_char(st, line[i as int]) {
            Flow::Go(next) => body_from(next, line, i + 1),
            other => other,
        }
    }
}

/// The rule after one `key=value` field of the header: a `rule` key sets it.
pub open spec fn header_field(rule: Option<(Seq<bool>, Seq<bool>)>, field: Seq<char>) -> Result<
    Option<(Seq<bool>, Seq<bool>)>,
    Seq<char>,
> {
    match find(field, '=') {
        Some(e) => if trim(field.take(e as int)) == "rule"@ {
            match rule_text_spec(field.skip(e + 1 as int)) {
                Ok(r) => Ok(Some(r)),
                Err(m) => Err(m),
            }
        } else {
            Ok(rule)
        },
        None => Ok(rule),
    }
}

/// The rule after the header fields `fields[k..]`.
pub open spec fn header_from(
    rule: Option<(Seq<bool>, Seq<bool>)>,
    fields: Seq<Seq<char>>,
    k: nat,
) -> Result<Option<(Seq<bool>, Seq<bool>)>, Seq<char>>
    decreases fields.len() - k,
{
    if k >= fields.len() {
        Ok(rule)
    } else {
        match header_field(rule, fields[k as int]) {
            Ok(r) => header_from(r, fields, k + 1),
            Err(m) => Err(m),
        }
    }
}

/// Reading line number `idx` (0-based), untrimmed.
pub open spec fn line_step(st: ReadState, raw: Seq<char>, idx: nat) -> Flow {
    let line = trim(raw);
    if line.len() == 0 || line[0] == '#' {
        Flow::Go(st)
    } else if !st.in_body && line[0] == 'x' {
        match header_from(st.rule, split(line, ','), 0) {
            Ok(r) => Flow::Go(ReadState { rule: r, ..st }),
            Err(m) => Flow::Fail(at_line(idx, m)),
        }
    } else {
        match body_from(ReadState { in_body: true, ..st }, line, 0) {
            Flow::Fail(m) => Flow::Fail(at_line(idx, m)),
            other => other,
        }
    }
}

/// Reading the lines `lines[idx..]`.
pub open spec fn lines_from(st: ReadState, lines: Seq<Seq<char>>, idx: nat) -> Result<
    ReadState,
    Seq<char>,
>
    decreases lines.len() - idx,
{
    if idx >= lines.len() {
        Err(msg_missing())
    } else {
        match line_step(st, lines[idx as int], idx) {
            Flow::Go(next) => lines_from(next, lines, idx + 1),
            Flow::Stop(done) => Ok(done),
            Flow::Fail(m) => Err(m),
        }
    }
}

/// What `parse` gives for `text`: the final reader state, or the message.
pub open spec fn parse_spec(text: Seq<char>) -> Result<ReadState, Seq<char>> {
    lines_from(start_state(), split(text, '\n'), 0)
}

/// Reading from line `idx` on fails only with the missing-terminator message
/// or with a message naming the line at fault.
proof fn lemma_lines_errors(st: ReadState, lines: Seq<Seq<char>>, idx: nat)
    ensures
        lines_from(st, lines, idx) matches Err(m) ==> m == msg_missing() || exists|k: nat, why: Seq<char>|
            idx <= k < lines.len() && m == #[trigger] at_line(k, why),
    decreases lines.len() - idx,
{
    if idx < lines.len() {
        match line_step(st, lines[idx as int], idx) {
            Flow::Go(next) => {
                lemma_lines_errors(next, lines, idx + 1);
                if let Err(m) = lines_from(next, lines, idx + 1) {
                    if m != msg_missing() {
                        let (k, why) = choose|k: nat, why: Seq<char>|
                            idx + 1 <= k < lines.len() && m == #[trigger] at_line(k, why);
                        assert(m == at_line(k, why));
                    }
                }
            },
            Flow::Stop(_) => {},
            Flow::Fail(m) => {
                let raw = lines[idx as int];
                let line = trim(raw);
                if !(line.len() == 0 || line[0] == '#') && !st.in_body && line[0] == 'x' {
                    let why = header_from(st.rule, split(line, ','), 0)->Err_0;
                    assert(m == at_line(idx, why));
                } else {
                    let why = body_from(ReadState { in_body: true, ..st }, line, 0)->Fail_0;
                    assert(m == at_line(idx, why));
                }
            },
        }
    }
}

/// Every message `parse` gives says what is wrong and, unless the text just
/// lacks its terminating `!`, on which line.
pub proof fn lemma_errors_name_their_line(text: Seq<char>)
    ensures
        parse_spec(text) matches Err(m) ==> m == msg_missing() || exists|k: nat, why: Seq<char>|
            k < split(text, '\n').len() && m == #[trigger] at_line(k, why),
{
    lemma_lines_errors(start_state(), split(text, '\n'), 0);
}

/// `rule` holds the tables `tables`.
pub open spec fn rule_is(rule: Option<RuleSet>, tables: Option<(Seq<bool>, Seq<bool>)>) -> bool {
    match (rule, tables) {
        (None, None) => true,
        (Some(r), Some((b, s))) => r.birth@ == b && r.survive@ == s,
        _ => false,
    }
}

/// Exec reader state.
struct Reader {
    cells: Vec<(i32, i32)>,
    rule: Option<RuleSet>,
    x: i64,
    y: i64,
    count: i64,
    in_body: bool,
}

impl Reader {
    spec fn state(&self) -> ReadState {
        ReadState {
            cells: self.cells@,
            rule: match self.rule {
                Some(r) => Some((r.birth@, r.survive@)),
                None => None,
            },
            x: self.x as int,
            y: self.y as int,
            count: self.count as int,
            in_body: self.in_body,
        }
    }

    spec fn bounded(&self) -> bool {
        &&& 0 <= self.x <= MAX_EXTENT
        &&& 0 <= self.y <= MAX_EXTENT
        &&& 0 <= self.count <= MAX_EXTENT
        &&& self.cells.len() <= MAX_CELLS
    }
}

/// Exec outcome of a character or a line.
enum Outcome {
    Go,
    Stop,
    Fail(String),
}

spec fn outcome_is(out: Outcome, rd: Reader, flow: Flow) -> bool {
    match (out, flow) {
        (Outcome::Go, Flow::Go(st)) => rd.state() == st,
        (Outcome::Stop, Flow::Stop(st)) => rd.state() == st,
        (Outcome::Fail(e), Flow::Fail(m)) => e@ == m,
        _ => false,
    }
}

/// Reads one body character.
fn read_char(rd: &mut Reader, c: char) -> (out: Outcome)
    requires
        old(rd).bounded(),
    ensures
        final(rd).bounded(),
        outcome_is(out, *final(rd), body_char(old(rd).state(), c)),
{
    if '0' <= c && c <= '9' {
        let d = (c as u32 - '0' as u32) as i64;
        let count = rd.count * 10 + d;
        if count > MAX_EXTENT {
            return Outcome::Fail(String::from_str("run count too large"));
        }
        rd.count = count;
        Outcome::Go
    } else if c == 'b' || c == 'o' || c == '$' {
        let n = if rd.count >= 1 {
            rd.count
        } else {
            1
        };
        if c == 'b' {
            if rd.x + n > MAX_EXTENT {
                return Outcome::Fail(String::from_str("pattern too large"));
            }
            rd.x = rd.x + n;
        } else if c == '$' {
            if rd.y + n > MAX_EXTENT {
                return Outcome::Fail(String::from_str("pattern too large"));
            }
            rd.x = 0;
            rd.y = rd.y + n;
        } else {
            if rd.x + n > MAX_EXTENT || rd.cells.len() + n as usize > MAX_CELLS {
                return Outcome::Fail(String::from_str("pattern too large"));
            }
            let ghost before = rd.cells@;
            let ghost rd0 = *rd;
            let mut k: i64 = 0;
            while k < n
                invariant
                    0 <= k <= n,
                    rd.x == rd0.x,
                    rd.y == rd0.y,
                    rd.count == rd0.count,
                    rd.rule == rd0.rule,
                    rd.in_body == rd0.in_body,
                    0 <= rd.x,
                    rd.x + n <= MAX_EXTENT,
                    0 <= rd.y <= MAX_EXTENT,
                    rd.cells@ == before + run_of(rd.x as int, rd.y as int, k as int),
                decreases n - k,
            {
                rd.cells.push(((rd.x + k) as i32, rd.y as i32));
                assert(rd.cells@ =~= before + run_of(rd.x as int, rd.y as int, k + 1));
                k += 1;
            }
            rd.x = rd.x + n;
        }
        rd.count = 0;
        Outcome::Go
    } else if c == '!' {
        Outcome::Stop
    } else if is_ws_char(c) {
        Outcome::Go
    } else {
        let mut e = String::from_str("unexpected character '");
        push_char(&mut e, c);
        e.append("'");
        assert(e@ =~= msg_unexpected(c));
        Outcome::Fail(e)
    }
}

/// Reads the body characters `v[lo..hi]`.
fn read_body(rd: &mut Reader, v: &Vec<char>, lo: usize, hi: usize) -> (out: Outcome)
    requires
        old(rd).bounded(),
        lo <= hi <= v.len(),
    ensures
        final(rd).bounded(),
        outcome_is(out, *final(rd), body_from(old(rd).state(), v@.subrange(lo as int, hi as int), 0)),
{
    let ghost line = v@.subrange(lo as int, hi as int);
    let mut i = lo;
    while i < hi
        invariant
            lo <= i <= hi <= v.len(),
            line == v@.subrange(lo as int, hi as int),
            rd.bounded(),
            body_from(old(rd).state(), line, 0) == body_from(rd.state(), line, (i - lo) as nat),
        decreases hi - i,
    {
        assert(line[(i - lo) as int] == v@[i as int]);
        let out = read_char(rd, v[i]);
        match out {
            Outcome::Go => {},
            _ => {
                return out;
            },
        }
        i += 1;
    }
    Outcome::Go
}

/// `line {idx + 1}: {msg}`.
fn at_line_msg(idx: usize, msg: String) -> (e: String)
    ensures
        e@ == at_line(idx as nat, msg@),
{
    let mut e = String::from_str("line ");
    push_decimal(&mut e, idx as u128 + 1);
    e.append(": ");
    e.append(msg.as_str());
    e
}

/// `split(s, c)` once: the first piece and the pieces after it.
proof fn lemma_split_step(s: Seq<char>, c: char, i: int)
    requires
        0 <= i <= s.len(),
        find(s, c) == (if i < s.len() {
            Some(i as nat)
        } else {
            None::<nat>
        }),
    ensures
        i < s.len() ==> split(s, c) == seq![s.take(i)] + split(s.skip(i + 1), c),
        i == s.len() ==> split(s, c) == seq![s],
{
}

/// Reads the header line `v[lo..hi]` (already trimmed) into `rd.rule`.
fn read_header(rd: &mut Reader, v: &Vec<char>, lo: usize, hi: usize) -> (res: Result<(), String>)
    requires
        lo <= hi <= v.len(),
    ensures
        final(rd).state() == (ReadState { rule: final(rd).state().rule, ..old(rd).state() }),
        match (res, header_from(old(rd).state().rule, split(v@.subrange(lo as int, hi as int), ','), 0)) {
            (Ok(()), Ok(r)) => final(rd).state() == (ReadState { rule: r, ..old(rd).state() }),
            (Err(e), Err(m)) => e@ == m,
            _ => false,
        },
{
    let ghost fields = split(v@.subrange(lo as int, hi as int), ',');
    let mut p = lo;
    let ghost mut k: nat = 0;
    assert(fields.skip(0) == fields);
    loop
        invariant
            lo <= p <= hi <= v.len(),
            fields == split(v@.subrange(lo as int, hi as int), ','),
            k <= fields.len(),
            split(v@.subrange(p as int, hi as int), ',') == fields.skip(k as int),
            rd.state() == (ReadState { rule: rd.state().rule, ..old(rd).state() }),
            header_from(old(rd).state().rule, fields, 0) == header_from(rd.state().rule, fields, k),
        decreases hi - p,
    {
        let q = find_from(v, ',', p, hi);
        proof {
            lemma_split_step(v@.subrange(p as int, hi as int), ',', q - p);
            let rest = v@.subrange(p as int, hi as int);
            assert(rest.take(q - p) =~= v@.subrange(p as int, q as int));
            if q < hi {
                assert(rest.skip(q - p + 1) =~= v@.subrange(q + 1, hi as int));
                assert(fields.skip(k as int)[0] == v@.subrange(p as int, q as int));
                assert(fields.skip(k + 1 as int) =~= fields.skip(k as int).drop_first());
            } else {
                assert(fields.skip(k as int) == seq![rest]);
                assert(rest =~= v@.subrange(p as int, q as int));
            }
            lemma_split_len(rest, ',');
            assert(fields.skip(k as int).len() >= 1);
            assert(k < fields.len());
            assert(fields.skip(k as int)[0] == fields[k as int]);
        }
        let ghost field = v@.subrange(p as int, q as int);
        assert(fields[k as int] == field);
        let e = find_from(v, '=', p, q);
        if e < q {
            let (ka, kb) = trim_span(v, p, e);
            proof {
                assert(field.take(e - p) =~= v@.subrange(p as int, e as int));
                assert(field.skip(e - p + 1) =~= v@.subrange(e + 1, q as int));
            }
            if span_is(v, ka, kb, "rule") {
                match rule_from_chars(v, e + 1, q) {
                    Ok(r) => {
                        rd.rule = Some(r);
                    },
                    Err(m) => {
                        return Err(m);
                    },
                }
            }
        }
        proof {
            k = k + 1;
        }
        if q == hi {
            assert(k == fields.len());
            return Ok(());
        }
        p = q + 1;
    }
}

/// Reads line number `idx`, the characters `v[lo..hi]`.
fn read_line(rd: &mut Reader, v: &Vec<char>, lo: usize, hi: usize, idx: usize) -> (out: Outcome)
    requires
        old(rd).bounded(),
        lo <= hi <= v.len(),
    ensures
        final(rd).bounded(),
        outcome_is(out, *final(rd), line_step(old(rd).state(), v@.subrange(lo as int, hi as int), idx as nat)),
{
    let (a, b) = trim_span(v, lo, hi);
    let ghost line = v@.subrange(a as int, b as int);
    if a == b || v[a] == '#' {
        return Outcome::Go;
    }
    assert(line[0] == v@[a as int]);
    if !rd.in_body && v[a] == 'x' {
        match read_header(rd, v, a, b) {
            Ok(()) => Outcome::Go,
            Err(m) => Outcome::Fail(at_line_msg(idx, m)),
        }
    } else {
        rd.in_body = true;
        match read_body(rd, v, a, b) {
            Outcome::Fail(m) => Outcome::Fail(at_line_msg(idx, m)),
            other => other,
        }
    }
}

/// Reads Golly RLE text: the live cells (in reading order) and the header's
/// rule, or a message saying what is wrong and, for a problem on a line, on
/// which line.
pub fn parse(text: &str) -> (res: Result<Rle, String>)
    ensures
        match (res, parse_spec(text@)) {
            (Ok(rle), Ok(st)) => rle.cells@ == st.cells && rule_is(rle.rule, st.rule),
            (Err(e), Err(m)) => e@ == m,
            _ => false,
        },
{
    let v = chars_of(text);
    let n = v.len();
    let ghost lines = split(text@, '\n');
    let mut rd = Reader { cells: Vec::new(), rule: None, x: 0, y: 0, count: 0, in_body: false };
    assert(rd.state() == start_state());
    assert(v@.subrange(0, n as int) =~= text@);
    assert(lines.skip(0) == lines);
    let mut p: usize = 0;
    let mut idx: usize = 0;
    loop
        invariant
            p <= n == v.len(),
            v@ == text@,
            lines == split(text@, '\n'),
            idx <= lines.len(),
            idx <= p,
            split(v@.subrange(p as int, n as int), '\n') == lines.skip(idx as int),
            rd.bounded(),
            parse_spec(text@) == lines_from(rd.state(), lines, idx as nat),
        decreases n - p,
    {
        let q = find_from(&v, '\n', p, n);
        proof {
            let rest = v@.subrange(p as int, n as int);
            lemma_split_step(rest, '\n', q - p);
            assert(rest.take(q - p) =~= v@.subrange(p as int, q as int));
            if q < n {
                assert(rest.skip(q - p + 1) =~= v@.subrange(q + 1, n as int));
                assert(lines.skip(idx + 1) =~= lines.skip(idx as int).drop_first());
            } else {
                assert(rest =~= v@.subrange(p as int, q as int));
                assert(lines.skip(idx as int) == seq![rest]);
                assert(lines.len() == idx + 1) by {
                    assert(lines.skip(idx as int).len() == 1);
                }
            }
            assert(lines[idx as int] == v@.subrange(p as int, q as int)) by {
                assert(lines.skip(idx as int)[0] == lines[idx as int]);
            }
        }
        let ghost st0 = rd.state();
        let out = read_line(&mut rd, &v, p, q, idx);
        proof {
            assert(lines_from(st0, lines, idx as nat) == match line_step(st0, lines[idx as int], idx as nat) {
                Flow::Go(next) => lines_from(next, lines, (idx + 1) as nat),
                Flow::Stop(done) => Ok(done),
                Flow::Fail(m) => Err(m),
            });
        }
        match out {
            Outcome::Go => {},
            Outcome::Stop => {
                return Ok(Rle { cells: rd.cells, rule: rd.rule });
            },
            Outcome::Fail(e) => {
                return Err(e);
            },
        }
        if q == n {
            assert(lines_from(rd.state(), lines, (idx + 1) as nat) == Err::<ReadState, Seq<char>>(msg_missing()));
            return Err(String::from_str("missing terminating '!'"));
        }
        p = q + 1;
        idx = idx + 1;
    }
}

/// The cells of RLE text that reads, such as the built-in pattern strings.
pub fn cells(rle: &str) -> (c: Vec<(i32, i32)>)
    requires
        parse_spec(rle@) is Ok,
    ensures
        c@ == parse_spec(rle@)->Ok_0.cells,
{
    match parse(rle) {
        Ok(r) => r.cells,
        Err(_) => Vec::new(),
    }
}

/// `(y, x)` for `(x, y)`.
pub open spec fn swap(c: Cell) -> Cell {
    (c.1, c.0)
}

/// `cells` in row-major order (by row, then by column), each given as
/// `(row, column)`; a cell listed twice appears twice.
pub open spec fn row_major(cells: Seq<Cell>) -> Seq<Cell> {
    choose|l: Seq<Cell>| sorted(l) && l.to_multiset() == cells.map_values(|c: Cell| swap(c)).to_multiset()
}

/// Every listing of cells has its row-major order, and only one.
pub proof fn lemma_row_major(cells: Seq<Cell>)
    ensures
        sorted(row_major(cells)),
        row_major(cells).to_multiset() == cells.map_values(|c: Cell| swap(c)).to_multiset(),
        forall|l: Seq<Cell>|
            sorted(l) && l.to_multiset() == cells.map_values(|c: Cell| swap(c)).to_multiset() ==> l
                == row_major(cells),
{
    let sw = cells.map_values(|c: Cell| swap(c));
    let leq = |a: Cell, b: Cell| lex_le(a, b);
    assert(vstd::relations::total_ordering(leq));
    sw.lemma_sort_by_ensures(leq);
    let w = sw.sort_by(leq);
    assert(sorted(w)) by {
        assert forall|i: int, j: int| 0 <= i < j < w.len() implies lex_le(#[trigger] w[i], #[trigger] w[j]) by {
            assert(leq(w[i], w[j]));
        }
    }
    let r = row_major(cells);
    assert(sorted(r) && r.to_multiset() == sw.to_multiset());
    assert forall|l: Seq<Cell>| sorted(l) && l.to_multiset() == sw.to_multiset() implies l == r by {
        crate::cellset::lemma_sorted_same_multiset(l, r);
    }
}

/// Smallest column among `l[..k]`.
pub open spec fn min_col(l: Seq<Cell>, k: nat) -> int
    decreases k,
{
    if k <= 1 {
        l[0].1 as int
    } else if l[k - 1].1 < min_col(l, (k - 1) as nat) {
        l[k - 1].1 as int
    } else {
        min_col(l, (k - 1) as nat)
    }
}

/// Largest column among `l[..k]`.
pub open spec fn max_col(l: Seq<Cell>, k: nat) -> int
    decreases k,
{
    if k <= 1 {
        l[0].1 as int
    } else if l[k - 1].1 > max_col(l, (k - 1) as nat) {
        l[k - 1].1 as int
    } else {
        max_col(l, (k - 1) as nat)
    }
}

/// Length of the run of horizontally adjacent cells starting at `l[i]`,
/// knowing it is at least `len`.
pub open spec fn run_end(l: Seq<Cell>, i: nat, len: nat) -> nat
    decreases l.len() - (i + len),
{
    if i + len < l.len() && l[(i + len) as int].0 == l[i as int].0 && l[(i + len) as int].1 == l[i as int].1 + len {
        run_end(l, i, len + 1)
    } else {
        len
    }
}

pub proof fn lemma_run_end(l: Seq<Cell>, i: nat, len: nat)
    requires
        i + len <= l.len(),
    ensures
        len <= run_end(l, i, len) <= l.len() - i,
    decreases l.len() - (i + len),
{
    if i + len < l.len() && l[(i + len) as int].0 == l[i as int].0 && l[(i + len) as int].1 == l[i as int].1 + len {
        lemma_run_end(l, i, len + 1);
    }
}

/// One RLE item: the tag, preceded by its count unless that is 1.
pub open spec fn run_token(n: nat, tag: char) -> Seq<char> {
    if n == 1 {
        seq![tag]
    } else {
        decimal(n).push(tag)
    }
}

/// The RLE items for the cells `l[i..]` (row-major, as `(row, column)`),
/// when the writer stands at row `row`, column `col` (relative to `min_x`).
pub open spec fn tokens_from(l: Seq<Cell>, i: nat, row: int, col: int, min_x: int) -> Seq<Seq<char>>
    decreases l.len() - i,
{
    if i >= l.len() {
        seq![seq!['!']]
    } else {
        let cy = l[i as int].0 as int;
        let cx = l[i as int].1 - min_x;
        let col1 = if cy != row {
            0
        } else {
            col
        };
        let len = run_end(l, i, 1);
        proof {
            lemma_run_end(l, i, 1);
        }
        (if cy != row {
            seq![run_token((cy - row) as nat, '$')]
        } else {
            seq![]
        }) + (if cx > col1 {
            seq![run_token((cx - col1) as nat, 'b')]
        } else {
            seq![]
        }) + seq![run_token(len, 'o')] + tokens_from(l, i + len, cy, cx + len, min_x)
    }
}

/// The items `tokens[k..]` laid out in lines of at most 70 characters, a new
/// line starting before an item that would not fit on the current one,
/// which already holds `line_len` characters.
pub open spec fn wrap(tokens: Seq<Seq<char>>, k: nat, line_len: nat) -> Seq<char>
    decreases tokens.len() - k,
{
    if k >= tokens.len() {
        seq![]
    } else if line_len + tokens[k as int].len() > 70 {
        seq!['\n'] + tokens[k as int] + wrap(tokens, k + 1, tokens[k as int].len())
    } else {
        tokens[k as int] + wrap(tokens, k + 1, line_len + tokens[k as int].len())
    }
}

/// Golly RLE text for the row-major cells `l` under `rule`.
pub open spec fn rle_text_of(l: Seq<Cell>, rule: RuleSet) -> Seq<char> {
    if l.len() == 0 {
        "x = 0, y = 0, rule = "@ + bs_text(rule) + "\n!\n"@
    } else {
        let min_x = min_col(l, l.len());
        let max_x = max_col(l, l.len());
        let min_y = l[0].0 as int;
        let max_y = l.last().0 as int;
        "x = "@ + decimal((max_x - min_x + 1) as nat) + ", y = "@ + decimal(
            (max_y - min_y + 1) as nat,
        ) + ", rule = "@ + bs_text(rule) + "\n"@ + wrap(tokens_from(l, 0, min_y, 0, min_x), 0, 0)
            + "\n"@
    }
}

pub proof fn lemma_min_max_col(l: Seq<Cell>, k: nat)
    requires
        1 <= k <= l.len(),
    ensures
        forall|m: int| 0 <= m < k ==> min_col(l, k) <= #[trigger] l[m].1 <= max_col(l, k),
        i64::MIN <= min_col(l, k) <= i64::MAX,
        i64::MIN <= max_col(l, k) <= i64::MAX,
    decreases k,
{
    if k > 1 {
        lemma_min_max_col(l, (k - 1) as nat);
    }
}

/// The cells of a run are horizontally adjacent, and the cell after a run is
/// further along in row-major order than where the run ends.
pub proof fn lemma_run_cols(l: Seq<Cell>, i: nat, len: nat)
    requires
        strictly_sorted(l),
        1 <= len,
        i + len < l.len(),
        run_end(l, i, 1) == len,
    ensures
        l[i as int].0 <= l[(i + len) as int].0,
        l[(i + len) as int].0 == l[i as int].0 ==> l[(i + len) as int].1 >= l[i as int].1 + len,
{
    lemma_run_adjacent(l, i, 1);
    let k: int = len - 1;
    assert(l[i + k].0 == l[i as int].0 && l[i + k].1 == l[i as int].1 + k);
    assert(lex_lt(l[i + k], l[(i + len) as int]));
}

pub proof fn lemma_run_adjacent(l: Seq<Cell>, i: nat, len: nat)
    requires
        1 <= len,
        i + len <= l.len(),
        forall|k: int| 0 <= k < len ==> (#[trigger] l[i + k]).0 == l[i as int].0 && l[i + k].1 == l[i as int].1 + k,
    ensures
        forall|k: int| 0 <= k < run_end(l, i, len) ==> (#[trigger] l[i + k]).0 == l[i as int].0 && l[i + k].1 == l[i as int].1 + k,
    decreases l.len() - (i + len),
{
    if i + len < l.len() && l[(i + len) as int].0 == l[i as int].0 && l[(i + len) as int].1 == l[i as int].1 + len {
        assert forall|k: int| 0 <= k < len + 1 implies (#[trigger] l[i + k]).0 == l[i as int].0 && l[i + k].1 == l[i as int].1 + k by {
            if k == len {
            }
        }
        lemma_run_adjacent(l, i, len + 1);
    }
}

/// `run_token` for exec.
fn token(n: u128, tag: char) -> (t: Vec<char>)
    requires
        n >= 1,
    ensures
        t@ == run_token(n as nat, tag),
        t@.len() <= 40,
{
    proof {
        reveal_with_fuel(pow10, 40);
        assert(pow10(39) == 1000000000000000000000000000000000000000nat);
        lemma_decimal_bound(n as nat, 39);
    }
    if n == 1 {
        let mut t = Vec::new();
        t.push(tag);
        assert(t@ =~= seq![tag]);
        t
    } else {
        let mut t = decimal_chars(n);
        t.push(tag);
        t
    }
}

/// Golly-style RLE for `cells`, shifted so the bounding box starts at (0, 0),
/// wrapped at 70 columns, with `rule` in the header. A cell listed twice is
/// written twice.
///
/// The header's `x` is the width of the cells' bounding box and its `y` the
/// height (`roundtrip::lemma_rle_header_size`).
pub fn to_rle(cells: Vec<Cell>, rule: RuleSet) -> (text: String)
    ensures
        text@ == rle_text_of(row_major(cells@), rule),
        forall|x0: int, x1: int, y0: int, y1: int|
            #![trigger x_span(cells@, x0, x1), y_span(cells@, y0, y1)]
            cells@.len() > 0 && x_span(cells@, x0, x1) && y_span(cells@, y0, y1) ==> {
                let head = "x = "@ + decimal((x1 - x0 + 1) as nat) + ", y = "@ + decimal(
                    (y1 - y0 + 1) as nat,
                ) + ", rule = "@ + bs_text(rule) + "\n"@;
                text@.take(head.len() as int) == head
            },
{
    let text = write_rle(cells, rule);
    proof {
        assert forall|x0: int, x1: int, y0: int, y1: int|
            cells@.len() > 0 && x_span(cells@, x0, x1) && y_span(cells@, y0, y1) implies {
                let head = "x = "@ + decimal((x1 - x0 + 1) as nat) + ", y = "@ + decimal(
                    (y1 - y0 + 1) as nat,
                ) + ", rule = "@ + bs_text(rule) + "\n"@;
                text@.take(head.len() as int) == head
            } by {
            lemma_rle_header_size(cells@, rule, x0, x1, y0, y1);
        }
    }
    text
}

/// The text of `to_rle`.
fn write_rle(cells: Vec<Cell>, rule: RuleSet) -> (text: String)
    ensures
        text@ == rle_text_of(row_major(cells@), rule),
{
    let mut swapped: Vec<Cell> = Vec::new();
    let mut k: usize = 0;
    while k < cells.len()
        invariant
            k <= cells.len(),
            swapped@ == cells@.subrange(0, k as int).map_values(|c: Cell| swap(c)),
        decreases cells.len() - k,
    {
        swapped.push((cells[k].1, cells[k].0));
        assert(cells@.subrange(0, k + 1) =~= cells@.subrange(0, k as int).push(cells@[k as int]));
        assert(swapped@ =~= cells@.subrange(0, k + 1).map_values(|c: Cell| swap(c)));
        k += 1;
    }
    assert(cells@.subrange(0, cells.len() as int) =~= cells@);
    let ghost sw = swapped@;
    let mut l = swapped;
    sort_cells(&mut l);
    proof {
        lemma_row_major(cells@);
        assert(sorted(l@) && l@.to_multiset() == cells@.map_values(|c: Cell| swap(c)).to_multiset());
        assert(l@ == row_major(cells@));
    }
    let ghost lv = l@;
    let mut out = String::from_str("x = ");
    if l.len() == 0 {
        let mut e = String::from_str("x = 0, y = 0, rule = ");
        e.append(rule.to_bs_string().as_str());
        e.append("\n!\n");
        return e;
    }
    let n = l.len();
    let min_y = l[0].0 as i128;
    let max_y = l[n - 1].0 as i128;
    let mut min_x = l[0].1 as i128;
    let mut max_x = l[0].1 as i128;
    let mut j: usize = 1;
    while j < n
        invariant
            1 <= j <= n == lv.len(),
            l@ == lv,
            min_x == min_col(lv, j as nat),
            max_x == max_col(lv, j as nat),
        decreases n - j,
    {
        if (l[j].1 as i128) < min_x {
            min_x = l[j].1 as i128;
        }
        if (l[j].1 as i128) > max_x {
            max_x = l[j].1 as i128;
        }
        j += 1;
    }
    proof {
        lemma_min_max_col(lv, n as nat);
        assert(lex_le(lv[0], lv[n - 1])) by {
            if n > 1 {
                assert(lex_le(lv[0], lv[n - 1]));
            }
        }
    }
    // The items, in order.
    let mut tokens: Vec<Vec<char>> = Vec::new();
    let ghost mut gt: Seq<Seq<char>> = Seq::empty();
    let mut row = min_y;
    let mut col: i128 = 0;
    let mut i: usize = 0;
    while i < n
        invariant
            i <= n == lv.len(),
            l@ == lv,
            sorted(lv),
            min_x == min_col(lv, n as nat),
            max_x == max_col(lv, n as nat),
            i64::MIN <= min_x <= i64::MAX,
            i64::MIN <= max_x <= i64::MAX,
            forall|m: int| 0 <= m < n ==> min_x <= #[trigger] lv[m].1,
            min_y == lv[0].0,
            max_y == lv[n - 1].0,
            i64::MIN <= row <= i64::MAX,
            col <= 0x4_0000_0000_0000_0000,
            i < n ==> row <= lv[i as int].0,
            0 <= col,
            tokens@.len() == gt.len(),
            forall|m: int| 0 <= m < gt.len() ==> #[trigger] tokens@[m]@ == gt[m],
            forall|m: int| 0 <= m < gt.len() ==> #[trigger] gt[m].len() <= 60,
            tokens_from(lv, 0, min_y as int, 0, min_x as int) == gt + tokens_from(
                lv,
                i as nat,
                row as int,
                col as int,
                min_x as int,
            ),
        decreases n - i,
    {
        let cy = l[i].0 as i128;
        let cx = l[i].1 as i128 - min_x;
        let ghost before = gt;
        let ghost rest = tokens_from(lv, i as nat, row as int, col as int, min_x as int);
        let mut len: usize = 1;
        while i + len < n && l[i + len].0 as i128 == cy && l[i + len].1 as i128 == l[i].1 as i128
            + len as i128
            invariant
                1 <= len,
                i + len <= n == lv.len(),
                l@ == lv,
                cy == lv[i as int].0,
                run_end(lv, i as nat, 1) == run_end(lv, i as nat, len as nat),
            decreases n - (i + len),
        {
            len += 1;
        }
        proof {
            lemma_run_end(lv, i as nat, 1);
        }
        let ghost mut added: Seq<Seq<char>> = Seq::empty();
        let mut col1 = col;
        if cy != row {
            let t = token((cy - row) as u128, '$');
            proof {
                gt = gt.push(t@);
                added = added.push(t@);
            }
            tokens.push(t);
            col1 = 0;
        }
        if cx > col1 {
            let t = token((cx - col1) as u128, 'b');
            proof {
                gt = gt.push(t@);
                added = added.push(t@);
            }
            tokens.push(t);
        }
        let t = token(len as u128, 'o');
        proof {
            gt = gt.push(t@);
            added = added.push(t@);
        }
        tokens.push(t);
        proof {
            assert(run_end(lv, i as nat, len as nat) == len);
            assert(rest == added + tokens_from(lv, (i + len) as nat, cy as int, (cx + len) as int, min_x as int));
            assert(gt =~= before + added);
            assert(before + rest =~= gt + tokens_from(lv, (i + len) as nat, cy as int, (cx + len) as int, min_x as int));
            lemma_run_adjacent(lv, i as nat, 1);
            let k_last: int = len - 1;
            assert(lv[i + k_last].1 == lv[i as int].1 + k_last);
            if i + len < n {
                assert(lex_le(lv[i as int], lv[i + len]));
            }
        }
        row = cy;
        col = cx + len as i128;
        i = i + len;
    }
    let t = token(1, '!');
    proof {
        gt = gt.push(t@);
        assert(tokens_from(lv, n as nat, row as int, col as int, min_x as int) == seq![seq!['!']]);
        assert(t@ =~= seq!['!']);
    }
    tokens.push(t);
    assert(gt =~= tokens_from(lv, 0, min_y as int, 0, min_x as int));
    push_decimal(&mut out, (max_x - min_x + 1) as u128);
    out.append(", y = ");
    push_decimal(&mut out, (max_y - min_y + 1) as u128);
    out.append(", rule = ");
    out.append(rule.to_bs_string().as_str());
    out.append("\n");
    let ghost header = out@;
    let mut line_len: usize = 0;
    let mut k: usize = 0;
    while k < tokens.len()
        invariant
            k <= tokens@.len() == gt.len(),
            forall|m: int| 0 <= m < gt.len() ==> #[trigger] tokens@[m]@ == gt[m],
            forall|m: int| 0 <= m < gt.len() ==> #[trigger] gt[m].len() <= 60,
            line_len <= 70,
            header + wrap(gt, 0, 0) == out@ + wrap(gt, k as nat, line_len as nat),
        decreases tokens.len() - k,
    {
        let tl = tokens[k].len();
        assert(tokens@[k as int]@ == gt[k as int]);
        if line_len + tl > 70 {
            push_char(&mut out, '\n');
            line_len = 0;
        }
        push_chars(&mut out, &tokens[k], 0, tl);
        line_len = line_len + tl;
        assert(tokens@[k as int]@.subrange(0, tl as int) =~= gt[k as int]);
        k += 1;
    }
    out.append("\n");
    out
}

} // verus!
