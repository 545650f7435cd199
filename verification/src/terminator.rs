//! Reading RLE text stops at the terminating `!`: nothing after it is read.
use vstd::prelude::*;
use crate::rle::{Flow, ReadState, body_from, line_step, lines_from, parse_spec, start_state};
use crate::roundtrip::lemma_body_concat;
use crate::text::{find, is_ws, lemma_find_facts, lemma_find_is, skip_ws, skip_ws_end, split, trim};

verus! {

/// Splitting `t + s` on `c`: the pieces of `t`, the last one joined with the
/// first piece of `s`, then the other pieces of `s`.
proof fn lemma_split_append(t: Seq<char>, s: Seq<char>, c: char)
    ensures
        split(t, c).len() >= 1,
        split(s, c).len() >= 1,
        split(t + s, c) == split(t, c).drop_last() + seq![split(t, c).last() + split(s, c)[0]] + split(
            s,
            c,
        ).drop_first(),
    decreases t.len(),
{
    crate::text::lemma_split_len(t, c);
    crate::text::lemma_split_len(s, c);
    lemma_find_facts(t, c);
    lemma_find_facts(s, c);
    match find(t, c) {
        Some(i) => {
            lemma_find_is(t + s, c, i as int);
            assert((t + s).take(i as int) =~= t.take(i as int));
            assert((t + s).skip(i + 1 as int) =~= t.skip(i + 1 as int) + s);
            lemma_split_append(t.skip(i + 1 as int), s, c);
            let rest = split(t.skip(i + 1 as int), c);
            assert(split(t, c) == seq![t.take(i as int)] + rest);
            assert(split(t, c).drop_last() =~= seq![t.take(i as int)] + rest.drop_last());
            assert(split(t, c).last() == rest.last());
        },
        None => {
            assert(split(t, c) == seq![t]);
            match find(s, c) {
                Some(j) => {
                    lemma_find_is(t + s, c, t.len() + j as int);
                    assert((t + s).take(t.len() + j as int) =~= t + s.take(j as int));
                    assert((t + s).skip(t.len() + j + 1 as int) =~= s.skip(j + 1 as int));
                    assert(split(s, c) == seq![s.take(j as int)] + split(s.skip(j + 1 as int), c));
                    assert(split(s, c).drop_first() =~= split(s.skip(j + 1 as int), c));
                },
                None => {
                    lemma_find_is(t + s, c, (t + s).len() as int);
                    assert(split(s, c) == seq![s]);
                    assert(split(s, c).drop_first() =~= Seq::<Seq<char>>::empty());
                },
            }
            assert(split(t, c).drop_last() =~= Seq::<Seq<char>>::empty());
        },
    }
}

/// Once text holding a non-blank character is stripped of its leading white
/// space, appending to it appends to the result.
proof fn lemma_skip_ws_append(u: Seq<char>, x: Seq<char>)
    requires
        skip_ws(u).len() > 0,
    ensures
        skip_ws(u + x) == skip_ws(u) + x,
    decreases u.len(),
{
    if u.len() > 0 && is_ws(u[0]) {
        assert((u + x)[0] == u[0]);
        assert((u + x).drop_first() =~= u.drop_first() + x);
        lemma_skip_ws_append(u.drop_first(), x);
    } else {
        assert(u.len() > 0);
        assert((u + x)[0] == u[0]);
    }
}

/// Stripping trailing white space keeps a prefix.
proof fn lemma_skip_ws_end_prefix(u: Seq<char>)
    ensures
        skip_ws_end(u).len() <= u.len(),
        skip_ws_end(u) == u.take(skip_ws_end(u).len() as int),
    decreases u.len(),
{
    if u.len() > 0 && is_ws(u.last()) {
        lemma_skip_ws_end_prefix(u.drop_last());
        assert(u.drop_last().take(skip_ws_end(u).len() as int) =~= u.take(skip_ws_end(u).len() as int));
    } else {
        assert(u.take(u.len() as int) =~= u);
    }
}

/// Appending to text only appends to it once trailing white space is
/// stripped, as long as something is left.
proof fn lemma_skip_ws_end_append(u: Seq<char>, x: Seq<char>)
    requires
        skip_ws_end(u).len() > 0,
    ensures
        skip_ws_end(u + x).len() >= skip_ws_end(u).len(),
        skip_ws_end(u + x).take(skip_ws_end(u).len() as int) == skip_ws_end(u),
    decreases x.len(),
{
    lemma_skip_ws_end_prefix(u);
    let k = skip_ws_end(u).len() as int;
    if x.len() == 0 {
        assert(u + x =~= u);
        assert(skip_ws_end(u).take(k) =~= skip_ws_end(u));
    } else if is_ws(x.last()) {
        assert((u + x).last() == x.last());
        assert((u + x).drop_last() =~= u + x.drop_last());
        lemma_skip_ws_end_append(u, x.drop_last());
    } else {
        assert((u + x).last() == x.last());
        assert(skip_ws_end(u + x) == u + x);
        assert((u + x).take(k) =~= u.take(k));
    }
}

/// What a line trims to only grows when the line is extended, once it
/// holds a non-blank character.
proof fn lemma_trim_append(raw: Seq<char>, x: Seq<char>)
    requires
        trim(raw).len() > 0,
    ensures
        trim(raw + x).len() >= trim(raw).len(),
        trim(raw + x).take(trim(raw).len() as int) == trim(raw),
{
    lemma_skip_ws_end_prefix(skip_ws(raw));
    lemma_skip_ws_append(raw, x);
    lemma_skip_ws_end_append(skip_ws(raw), x);
}

/// A line on which reading stops still stops it, the same way, when more
/// text follows on it.
proof fn lemma_stop_line_extended(st: ReadState, raw: Seq<char>, x: Seq<char>, idx: nat)
    requires
        line_step(st, raw, idx) is Stop,
    ensures
        line_step(st, raw + x, idx) == line_step(st, raw, idx),
{
    let line = trim(raw);
    assert(line.len() > 0);
    lemma_trim_append(raw, x);
    let line2 = trim(raw + x);
    assert(line2 =~= line + line2.skip(line.len() as int));
    assert(line2[0] == line[0]);
    let st_b = ReadState { in_body: true, ..st };
    lemma_body_concat(st_b, line, line2.skip(line.len() as int), 0);
}

/// Reading lines that agree with `l1` before its last one, whose next line
/// extends that last one, ends as reading `l1` does when that ends at a `!`.
proof fn lemma_lines_extended(st: ReadState, l1: Seq<Seq<char>>, l2: Seq<Seq<char>>, idx: nat)
    requires
        l1.len() >= 1,
        l2.len() >= l1.len(),
        forall|k: int| 0 <= k < l1.len() - 1 ==> l2[k] == l1[k],
        l2[l1.len() - 1].len() >= l1.last().len(),
        l2[l1.len() - 1].take(l1.last().len() as int) == l1.last(),
        lines_from(st, l1, idx) is Ok,
    ensures
        lines_from(st, l2, idx) == lines_from(st, l1, idx),
    decreases l1.len() - idx,
{
    if idx < l1.len() - 1 {
        assert(l2[idx as int] == l1[idx as int]);
        match line_step(st, l1[idx as int], idx) {
            Flow::Go(next) => {
                lemma_lines_extended(next, l1, l2, idx + 1);
            },
            _ => {},
        }
    } else if idx == l1.len() - 1 {
        let raw = l1.last();
        let raw2 = l2[idx as int];
        assert(l1[idx as int] == raw);
        match line_step(st, raw, idx) {
            Flow::Go(next) => {
                assert(lines_from(next, l1, idx + 1) is Err);
            },
            Flow::Stop(done) => {
                assert(raw2 =~= raw + raw2.skip(raw.len() as int));
                lemma_stop_line_extended(st, raw, raw2.skip(raw.len() as int), idx);
            },
            Flow::Fail(_) => {},
        }
    }
}

/// Reading stops at the terminating `!`: text that reads gives the same
/// result with anything appended to it.
pub proof fn lemma_text_after_terminator_ignored(t: Seq<char>, s: Seq<char>)
    requires
        parse_spec(t) is Ok,
    ensures
        parse_spec(t + s) == parse_spec(t),
{
    let l1 = split(t, '\n');
    let l2 = split(t + s, '\n');
    lemma_split_append(t, s, '\n');
    let n = l1.len();
    assert(l2.len() >= n);
    assert forall|k: int| 0 <= k < n - 1 implies l2[k] == l1[k] by {
        assert(l2[k] == l1.drop_last()[k]);
    }
    let joined = l1.last() + split(s, '\n')[0];
    assert(l2[n - 1] == joined);
    assert(joined.take(l1.last().len() as int) =~= l1.last());
    lemma_lines_extended(start_state(), l1, l2, 0);
}

} // verus!
