//! Life-like (totalistic B/S) rules: the rule type, Golly-style rule text in
//! both directions, and the named presets.
use vstd::prelude::*;
use vstd::std_specs::cmp::PartialEqSpecImpl;
use crate::text::{
    chars_of, digit, digit_char, find, find_from, is_ws, lemma_find_facts, lemma_find_is, lemma_split_len, lower,
    lower_all, lower_char, skip_ws, skip_ws_end,
    push_char, push_chars, split, trim, trim_span,
};

verus! {

broadcast use vstd::string::group_string_axioms;

/// A totalistic Life-like rule: how many live neighbors (0-8) are required
/// for a dead cell to be born, and for a live cell to survive.
#[derive(Clone, Copy, Debug)]
pub struct RuleSet {
    pub birth: [bool; 9],
    pub survive: [bool; 9],
}

impl RuleSet {
    /// Whether two rules have the same birth and survival tables.
    pub open spec fn same(&self, other: &RuleSet) -> bool {
        self.birth@ == other.birth@ && self.survive@ == other.survive@
    }
}

impl PartialEq for RuleSet {
    fn eq(&self, other: &RuleSet) -> (r: bool) {
        let mut i: usize = 0;
        while i < 9
            invariant
                i <= 9,
                forall|j: int| 0 <= j < i ==> self.birth@[j] == other.birth@[j] && self.survive@[j]
                    == other.survive@[j],
            decreases 9 - i,
        {
            if self.birth[i] != other.birth[i] || self.survive[i] != other.survive[i] {
                return false;
            }
            i += 1;
        }
        assert(self.birth@ =~= other.birth@);
        assert(self.survive@ =~= other.survive@);
        true
    }
}

impl PartialEqSpecImpl for RuleSet {
    open spec fn obeys_eq_spec() -> bool {
        true
    }

    open spec fn eq_spec(&self, other: &RuleSet) -> bool {
        self.same(other)
    }
}

/// The 9-entry table that is `true` exactly at the listed neighbour counts.
pub open spec fn table_of(counts: Seq<u8>) -> Seq<bool> {
    Seq::new(9, |n: int| counts.contains(n as u8))
}

/// The 9-entry table that is `true` exactly at the digits present in `d`.
pub open spec fn digit_table(d: Seq<char>) -> Seq<bool> {
    Seq::new(9, |n: int| d.contains(digit_char(n as nat)))
}

/// A digit the engine accepts in a rule: `0` to `8`.
pub open spec fn is_count_digit(c: char) -> bool {
    '0' <= c <= '8'
}

/// The first character of `d` that is not a count digit.
pub open spec fn bad_char(d: Seq<char>) -> Option<char>
    decreases d.len(),
{
    if d.len() == 0 {
        None
    } else if !is_count_digit(d[0]) {
        Some(d[0])
    } else {
        bad_char(d.drop_first())
    }
}

/// Which part holds the birth digits and which the survival digits:
/// `b../s..`, `s../b..`, or the legacy digits-only `S/B` order.
pub open spec fn birth_survive_parts(first: Seq<char>, second: Seq<char>) -> (Seq<char>, Seq<char>) {
    if first.len() > 0 && first[0] == 'b' && second.len() > 0 && second[0] == 's' {
        (first.drop_first(), second.drop_first())
    } else if first.len() > 0 && first[0] == 's' && second.len() > 0 && second[0] == 'b' {
        (second.drop_first(), first.drop_first())
    } else {
        (second, first)
    }
}

pub open spec fn msg_bounded() -> Seq<char> {
    "bounded-grid suffix (:T/:P) is not supported"@
}

pub open spec fn msg_parts(t: Seq<char>) -> Seq<char> {
    "expected two parts separated by '/', got \""@ + t + "\""@
}

pub open spec fn msg_char(c: char, t: Seq<char>) -> Seq<char> {
    "unsupported character '"@ + seq![c] + "' in rule \""@ + t + "\""@
}

pub open spec fn msg_b0() -> Seq<char> {
    "B0 rules are not supported"@
}

/// What `RuleSet::from_bs_string` gives for `text`: the birth and survival
/// tables, or the error message.
pub open spec fn rule_text_spec(text: Seq<char>) -> Result<(Seq<bool>, Seq<bool>), Seq<char>> {
    let t = lower_all(trim(text));
    if t.contains(':') {
        Err(msg_bounded())
    } else if split(t, '/').len() != 2 {
        Err(msg_parts(t))
    } else {
        let (b, s) = birth_survive_parts(split(t, '/')[0], split(t, '/')[1]);
        match bad_char(b) {
            Some(c) => Err(msg_char(c, t)),
            None => match bad_char(s) {
                Some(c) => Err(msg_char(c, t)),
                None => if digit_table(b)[0] {
                    Err(msg_b0())
                } else {
                    Ok((digit_table(b), digit_table(s)))
                },
            },
        }
    }
}

/// The digits `0..k` at which `table` is set, in increasing order.
pub open spec fn table_digits(table: Seq<bool>, k: nat) -> Seq<char>
    decreases k,
{
    if k == 0 {
        seq![]
    } else {
        table_digits(table, (k - 1) as nat) + if table[k - 1] {
            seq![digit_char((k - 1) as nat)]
        } else {
            seq![]
        }
    }
}

/// Standard `B.../S...` notation of the tables `b` and `s`.
pub open spec fn tables_text(b: Seq<bool>, s: Seq<bool>) -> Seq<char> {
    "B"@ + table_digits(b, 9) + "/S"@ + table_digits(s, 9)
}

/// Standard `B.../S...` notation of a rule.
pub open spec fn bs_text(rule: RuleSet) -> Seq<char> {
    tables_text(rule.birth@, rule.survive@)
}

/// Whether `v[lo..hi]` has no `c`.
proof fn lemma_split_one(s: Seq<char>, c: char)
    requires
        find(s, c) is None,
    ensures
        split(s, c) == seq![s],
{
}

proof fn lemma_contains_find(s: Seq<char>, c: char)
    ensures
        s.contains(c) <==> find(s, c) is Some,
{
    lemma_find_facts(s, c);
    if s.contains(c) {
        let j = choose|j: int| 0 <= j < s.len() && s[j] == c;
        assert(s[j] == c);
    }
    match find(s, c) {
        Some(i) => {
            assert(s[i as int] == c);
        },
        None => {},
    }
}

/// Reads one digit string into `table`, stopping at the first character that
/// is not a count digit.
fn read_digits(t: &Vec<char>, lo: usize, hi: usize, table: &mut [bool; 9]) -> (bad: Option<char>)
    requires
        lo <= hi <= t.len(),
        forall|n: int| 0 <= n < 9 ==> !old(table)@[n],
    ensures
        bad == bad_char(t@.subrange(lo as int, hi as int)),
        bad is None ==> final(table)@ == digit_table(t@.subrange(lo as int, hi as int)),
{
    let ghost d = t@.subrange(lo as int, hi as int);
    let mut i = lo;
    while i < hi
        invariant
            lo <= i <= hi <= t.len(),
            d == t@.subrange(lo as int, hi as int),
            bad_char(d) == bad_char(t@.subrange(i as int, hi as int)),
            forall|n: int|
                0 <= n < 9 ==> table@[n] == t@.subrange(lo as int, i as int).contains(
                    digit_char(n as nat),
                ),
        decreases hi - i,
    {
        let ch = t[i];
        assert(t@.subrange(i as int, hi as int)[0] == ch);
        if !('0' <= ch && ch <= '8') {
            return Some(ch);
        }
        assert(t@.subrange(i as int, hi as int).drop_first() =~= t@.subrange(i + 1, hi as int));
        let n = (ch as u32 - '0' as u32) as usize;
        assert(digit_char(n as nat) == ch);
        table[n] = true;
        proof {
            let before = t@.subrange(lo as int, i as int);
            let after = t@.subrange(lo as int, i + 1);
            assert(after =~= before.push(ch));
            assert forall|m: int| 0 <= m < 9 implies table@[m] == after.contains(
                digit_char(m as nat),
            ) by {
                if after.contains(digit_char(m as nat)) && !before.contains(digit_char(m as nat)) {
                    let k = choose|k: int|
                        0 <= k < after.len() && after[k] == digit_char(m as nat);
                    if k < before.len() {
                        assert(before[k] == after[k]);
                    }
                    assert(digit_char(m as nat) == ch);
                    assert(m == n);
                }
                if before.contains(digit_char(m as nat)) {
                    let k = choose|k: int|
                        0 <= k < before.len() && before[k] == digit_char(m as nat);
                    assert(after[k] == before[k]);
                }
                if m == n {
                    assert(after[after.len() - 1] == ch);
                }
            }
        }
        i += 1;
    }
    assert(table@ =~= digit_table(d));
    None
}

impl RuleSet {
    /// The rule whose birth and survival counts are exactly the listed ones.
    pub fn from_counts(birth: &[u8], survive: &[u8]) -> (rule: Self)
        requires
            forall|i: int| 0 <= i < birth@.len() ==> birth@[i] <= 8,
            forall|i: int| 0 <= i < survive@.len() ==> survive@[i] <= 8,
        ensures
            rule.birth@ == table_of(birth@),
            rule.survive@ == table_of(survive@),
    {
        let mut rule = RuleSet { birth: [false; 9], survive: [false; 9] };
        fill_table(birth, &mut rule.birth);
        fill_table(survive, &mut rule.survive);
        rule
    }

    /// Parses Golly-style rule text: `B3/S23` (any case, either order) or the
    /// legacy `S/B` digit form `23/3`. Rejects, rather than silently
    /// mis-simulating, what this engine cannot run: B0 (the sparse step
    /// only visits cells that already have a live neighbour), the `:T`/`:P`
    /// bounded-grid suffix, `V`/`H` neighbourhoods and Generations rules.
    pub fn from_bs_string(text: &str) -> (res: Result<Self, String>)
        ensures
            match (res, rule_text_spec(text@)) {
                (Ok(rule), Ok((b, s))) => rule.birth@ == b && rule.survive@ == s,
                (Err(e), Err(m)) => e@ == m,
                _ => false,
            },
    {
        let v = chars_of(text);
        let r = rule_from_chars(&v, 0, v.len());
        assert(v@.subrange(0, v.len() as int) =~= text@);
        r
    }
}

/// `RuleSet::from_bs_string` on the characters `v[lo..hi]`.
#[verifier::rlimit(40)]
#[verifier::spinoff_prover]
pub fn rule_from_chars(v: &Vec<char>, lo: usize, hi: usize) -> (res: Result<RuleSet, String>)
    requires
        lo <= hi <= v.len(),
    ensures
        match (res, rule_text_spec(v@.subrange(lo as int, hi as int))) {
            (Ok(rule), Ok((b, s))) => rule.birth@ == b && rule.survive@ == s,
            (Err(e), Err(m)) => e@ == m,
            _ => false,
        },
{
    let ghost text = v@.subrange(lo as int, hi as int);
    let (a, b) = trim_span(v, lo, hi);
    let mut t: Vec<char> = Vec::new();
    let mut k = a;
    while k < b
        invariant
            a <= k <= b <= v.len(),
            t@ == lower_all(v@.subrange(a as int, k as int)),
        decreases b - k,
    {
        t.push(lower_char(v[k]));
        assert(lower_all(v@.subrange(a as int, k + 1)) =~= lower_all(
            v@.subrange(a as int, k as int),
        ).push(lower(v@[k as int])));
        k += 1;
    }
    let ghost tt = t@;
    assert(tt == lower_all(trim(text)));
    let n = t.len();
    assert(t@.subrange(0, n as int) =~= t@);
    let colon = find_from(&t, ':', 0, n);
    proof {
        lemma_contains_find(tt, ':');
    }
    if colon < n {
        return Err(String::from_str("bounded-grid suffix (:T/:P) is not supported"));
    }
    let i = find_from(&t, '/', 0, n);
    let j = if i < n {
        find_from(&t, '/', i + 1, n)
    } else {
        n
    };
    proof {
        lemma_find_facts(tt, '/');
        if i < n {
            assert(tt.skip(i + 1) =~= t@.subrange(i + 1, n as int));
            lemma_split_len(tt.skip(i + 1), '/');
            lemma_find_facts(tt.skip(i + 1), '/');
        }
    }
    if i == n || j < n {
        proof {
            if i == n {
                assert(split(tt, '/') == seq![tt]);
            } else {
                let rest = tt.skip(i + 1);
                assert(find(rest, '/') is Some);
                let k = find(rest, '/')->0;
                lemma_split_len(rest.skip(k + 1 as int), '/');
                assert(split(rest, '/').len() >= 2);
                assert(split(tt, '/').len() >= 3);
            }
        }
        let mut e = String::from_str("expected two parts separated by '/', got \"");
        push_chars(&mut e, &t, 0, n);
        e.append("\"");
        return Err(e);
    }
    proof {
        lemma_split_one(tt.skip(i + 1), '/');
        assert(split(tt, '/') =~= seq![tt.take(i as int), tt.skip(i + 1)]);
        assert(tt.take(i as int) =~= t@.subrange(0, i as int));
    }
    // Bounds of the first and second part, then of the birth and survival digits.
    let (f0, f1, s0, s1) = (0usize, i, i + 1, n);
    let (b0, b1, v0, v1) = if f1 > f0 && t[f0] == 'b' && s1 > s0 && t[s0] == 's' {
        (f0 + 1, f1, s0 + 1, s1)
    } else if f1 > f0 && t[f0] == 's' && s1 > s0 && t[s0] == 'b' {
        (s0 + 1, s1, f0 + 1, f1)
    } else {
        (s0, s1, f0, f1)
    };
    proof {
        let first = t@.subrange(0, i as int);
        let second = t@.subrange(i + 1, n as int);
        let (bd, sd) = birth_survive_parts(first, second);
        assert(bd =~= t@.subrange(b0 as int, b1 as int));
        assert(sd =~= t@.subrange(v0 as int, v1 as int));
    }
    let mut rule = RuleSet { birth: [false; 9], survive: [false; 9] };
    match read_digits(&t, b0, b1, &mut rule.birth) {
        Some(c) => return Err(unsupported(c, &t)),
        None => {},
    }
    match read_digits(&t, v0, v1, &mut rule.survive) {
        Some(c) => return Err(unsupported(c, &t)),
        None => {},
    }
    if rule.birth[0] {
        return Err(String::from_str("B0 rules are not supported"));
    }
    Ok(rule)
}

impl RuleSet {
    /// Formats as standard "B.../S..." notation.
    pub fn to_bs_string(self) -> (s: String)
        ensures
            s@ == bs_text(self),
    {
        let mut s = String::from_str("B");
        push_table_digits(&mut s, &self.birth);
        s.append("/S");
        push_table_digits(&mut s, &self.survive);
        s
    }
}

proof fn lemma_table_digits(table: Seq<bool>, k: nat)
    requires
        table.len() == 9,
        k <= 9,
    ensures
        forall|i: int|
            0 <= i < table_digits(table, k).len() ==> is_count_digit(
                #[trigger] table_digits(table, k)[i],
            ),
        forall|m: nat|
            m < 9 ==> (table_digits(table, k).contains(#[trigger] digit_char(m)) <==> (m < k
                && table[m as int])),
    decreases k,
{
    if k > 0 {
        let prev = table_digits(table, (k - 1) as nat);
        lemma_table_digits(table, (k - 1) as nat);
        let cur = table_digits(table, k);
        let tail = if table[k - 1] {
            seq![digit_char((k - 1) as nat)]
        } else {
            seq![]
        };
        assert(cur == prev + tail);
        assert forall|i: int| 0 <= i < cur.len() implies is_count_digit(#[trigger] cur[i]) by {
            if i < prev.len() {
                assert(cur[i] == prev[i]);
            }
        }
        assert forall|m: nat| m < 9 implies (cur.contains(#[trigger] digit_char(m)) <==> (m < k
            && table[m as int])) by {
            if cur.contains(digit_char(m)) {
                let j = choose|j: int| 0 <= j < cur.len() && cur[j] == digit_char(m);
                if j < prev.len() {
                    assert(prev[j] == cur[j]);
                } else {
                    assert(digit_char(m) == digit_char((k - 1) as nat));
                    assert(m == k - 1);
                }
            }
            if m < k && table[m as int] {
                if m < k - 1 {
                    let j = choose|j: int| 0 <= j < prev.len() && prev[j] == digit_char(m);
                    assert(cur[j] == prev[j]);
                } else {
                    assert(cur[prev.len() as int] == digit_char(m));
                }
            }
        }
    }
}

proof fn lemma_no_bad_char(d: Seq<char>)
    requires
        forall|i: int| 0 <= i < d.len() ==> is_count_digit(#[trigger] d[i]),
    ensures
        bad_char(d) is None,
    decreases d.len(),
{
    if d.len() > 0 {
        assert forall|i: int| 0 <= i < d.drop_first().len() implies is_count_digit(
            #[trigger] d.drop_first()[i],
        ) by {
            assert(d.drop_first()[i] == d[i + 1]);
        }
        lemma_no_bad_char(d.drop_first());
    }
}

/// The `B.../S...` text of the tables `b` and `s` reads back as the same
/// tables, except that B0 tables are refused.
pub proof fn lemma_tables_text_round_trip(b: Seq<bool>, s: Seq<bool>)
    requires
        b.len() == 9,
        s.len() == 9,
    ensures
        rule_text_spec(tables_text(b, s)) == (if b[0] {
            Err::<(Seq<bool>, Seq<bool>), Seq<char>>(msg_b0())
        } else {
            Ok((b, s))
        }),
{
    reveal_strlit("B");
    reveal_strlit("/S");
    let d1 = table_digits(b, 9);
    let d2 = table_digits(s, 9);
    lemma_table_digits(b, 9);
    lemma_table_digits(s, 9);
    let text = tables_text(b, s);
    assert(text =~= seq!['B'] + d1 + seq!['/', 'S'] + d2);
    // No white space at either end.
    assert(!is_ws(text[0]));
    assert(skip_ws(text) == text);
    let last = text.last();
    if d2.len() > 0 {
        assert(last == d2[d2.len() - 1]);
        assert(is_count_digit(last));
    } else {
        assert(last == 'S');
    }
    assert(!is_ws(last));
    assert(skip_ws_end(text) == text);
    assert(trim(text) == text);
    let t = lower_all(text);
    let t2 = seq!['b'] + d1 + seq!['/', 's'] + d2;
    assert forall|i: int| 0 <= i < t.len() implies t[i] == t2[i] by {
        if 1 <= i < 1 + d1.len() {
            assert(is_count_digit(d1[i - 1]));
        } else if i >= 3 + d1.len() {
            assert(is_count_digit(d2[i - 3 - d1.len()]));
        }
    }
    assert(t =~= t2);
    // No ':' anywhere.
    assert forall|i: int| 0 <= i < t.len() implies t[i] != ':' by {
        if 1 <= i < 1 + d1.len() {
            assert(is_count_digit(d1[i - 1]));
        } else if i >= 3 + d1.len() {
            assert(is_count_digit(d2[i - 3 - d1.len()]));
        }
    }
    assert(!t.contains(':'));
    // Exactly one '/', right after the birth digits.
    let i: int = 1 + d1.len() as int;
    assert forall|j: int| 0 <= j < i implies t[j] != '/' by {
        if j >= 1 {
            assert(is_count_digit(d1[j - 1]));
        }
    }
    lemma_find_is(t, '/', i);
    let rest = t.skip(i + 1);
    assert(rest =~= seq!['s'] + d2);
    assert forall|j: int| 0 <= j < rest.len() implies rest[j] != '/' by {
        if j >= 1 {
            assert(is_count_digit(d2[j - 1]));
        }
    }
    lemma_find_is(rest, '/', rest.len() as int);
    assert(split(rest, '/') == seq![rest]);
    assert(split(t, '/') =~= seq![t.take(i as int), rest]);
    assert(t.take(i as int) =~= seq!['b'] + d1);
    assert((seq!['b'] + d1).drop_first() =~= d1);
    assert((seq!['s'] + d2).drop_first() =~= d2);
    lemma_no_bad_char(d1);
    lemma_no_bad_char(d2);
    assert(digit_table(d1) =~= b);
    assert(digit_table(d2) =~= s);
}

/// A rule written out by `to_bs_string` reads back as the same rule, except
/// that B0 rules are refused.
pub proof fn lemma_rule_text_round_trip(rule: RuleSet)
    ensures
        rule_text_spec(bs_text(rule)) == (if rule.birth@[0] {
            Err::<(Seq<bool>, Seq<bool>), Seq<char>>(msg_b0())
        } else {
            Ok((rule.birth@, rule.survive@))
        }),
{
    lemma_tables_text_round_trip(rule.birth@, rule.survive@);
}

/// A character `to_bs_string` may write.
pub open spec fn rule_char(c: char) -> bool {
    c == 'B' || c == '/' || c == 'S' || is_count_digit(c)
}

/// `to_bs_string` writes `B` first, then only rule characters.
pub proof fn lemma_bs_text_chars(rule: RuleSet)
    ensures
        bs_text(rule).len() >= 3,
        bs_text(rule)[0] == 'B',
        forall|j: int| 0 <= j < bs_text(rule).len() ==> rule_char(#[trigger] bs_text(rule)[j]),
{
    reveal_strlit("B");
    reveal_strlit("/S");
    let d1 = table_digits(rule.birth@, 9);
    let d2 = table_digits(rule.survive@, 9);
    lemma_table_digits(rule.birth@, 9);
    lemma_table_digits(rule.survive@, 9);
    let text = bs_text(rule);
    assert(text =~= seq!['B'] + d1 + seq!['/', 'S'] + d2);
    assert forall|j: int| 0 <= j < text.len() implies rule_char(#[trigger] text[j]) by {
        if 1 <= j < 1 + d1.len() {
            assert(text[j] == d1[j - 1]);
        } else if j >= 3 + d1.len() {
            assert(text[j] == d2[j - 3 - d1.len()]);
        }
    }
}

/// `unsupported character '{c}' in rule "{t}"`.
fn unsupported(c: char, t: &Vec<char>) -> (e: String)
    ensures
        e@ == msg_char(c, t@),
{
    let mut e = String::from_str("unsupported character '");
    push_char(&mut e, c);
    e.append("' in rule \"");
    push_chars(&mut e, t, 0, t.len());
    e.append("\"");
    assert(t@.subrange(0, t.len() as int) =~= t@);
    e
}

/// Sets `table[n]` for every listed count `n`.
fn fill_table(counts: &[u8], table: &mut [bool; 9])
    requires
        forall|i: int| 0 <= i < counts@.len() ==> counts@[i] <= 8,
        forall|n: int| 0 <= n < 9 ==> !old(table)@[n],
    ensures
        final(table)@ == table_of(counts@),
{
    let mut i: usize = 0;
    while i < counts.len()
        invariant
            i <= counts@.len(),
            forall|k: int| 0 <= k < counts@.len() ==> counts@[k] <= 8,
            forall|n: int|
                0 <= n < 9 ==> table@[n] == counts@.subrange(0, i as int).contains(n as u8),
        decreases counts.len() - i,
    {
        let c = counts[i];
        table[c as usize] = true;
        proof {
            let before = counts@.subrange(0, i as int);
            let after = counts@.subrange(0, i + 1);
            assert(after =~= before.push(c));
            assert forall|m: int| 0 <= m < 9 implies table@[m] == after.contains(m as u8) by {
                if after.contains(m as u8) && !before.contains(m as u8) {
                    let k = choose|k: int| 0 <= k < after.len() && after[k] == m as u8;
                    if k < before.len() {
                        assert(before[k] == after[k]);
                    }
                }
                if before.contains(m as u8) {
                    let k = choose|k: int| 0 <= k < before.len() && before[k] == m as u8;
                    assert(after[k] == before[k]);
                }
                if m == c {
                    assert(after[after.len() - 1] == c);
                }
            }
        }
        i += 1;
    }
    assert(counts@.subrange(0, counts@.len() as int) =~= counts@);
    assert(table@ =~= table_of(counts@));
}

/// Appends the digits at which `table` is set, in increasing order.
fn push_table_digits(s: &mut String, table: &[bool; 9])
    ensures
        final(s)@ == old(s)@ + table_digits(table@, 9),
{
    let mut n: usize = 0;
    while n < 9
        invariant
            n <= 9,
            s@ == old(s)@ + table_digits(table@, n as nat),
        decreases 9 - n,
    {
        if table[n] {
            push_char(s, digit(n as u64));
        }
        assert(s@ =~= old(s)@ + table_digits(table@, (n + 1) as nat));
        n += 1;
    }
}


/// Long-term behavior from random-soup testing (LifeWiki/community consensus).
#[derive(Clone, Copy, PartialEq, Eq, Debug, Structural)]
pub enum Class {
    /// Stays turbulent without settling or unbounded growth.
    Chaotic,
    /// Grows without bound.
    Explosive,
    /// Settles into still lifes and oscillators.
    Stable,
}

impl Class {
    /// Every class, in display order.
    pub fn all() -> (r: [Class; 3])
        ensures
            r@ == seq![Class::Chaotic, Class::Explosive, Class::Stable],
    {
        let r = [Class::Chaotic, Class::Explosive, Class::Stable];
        assert(r@ =~= seq![Class::Chaotic, Class::Explosive, Class::Stable]);
        r
    }

    pub fn label(self) -> (s: &'static str)
        ensures
            s@ == class_label(self),
    {
        match self {
            Class::Chaotic => "chaotic",
            Class::Explosive => "explosive",
            Class::Stable => "stable",
        }
    }
}

pub open spec fn class_label(c: Class) -> Seq<char> {
    match c {
        Class::Chaotic => "chaotic"@,
        Class::Explosive => "explosive"@,
        Class::Stable => "stable"@,
    }
}

/// A named rule with its behaviour class.
pub struct Preset {
    pub name: &'static str,
    pub birth: Vec<u8>,
    pub survive: Vec<u8>,
    pub class: Class,
}

/// Name, birth counts, survival counts and class of a preset.
pub type PresetSpec = (Seq<char>, Seq<u8>, Seq<u8>, Class);

pub open spec fn preset_view(p: Preset) -> PresetSpec {
    (p.name@, p.birth@, p.survive@, p.class)
}

/// The built-in rule presets, in display order.
pub open spec fn spec_presets() -> Seq<PresetSpec> {
    seq![
        ("Conway's Life"@, seq![3u8], seq![2u8, 3u8], Class::Stable),
        ("2x2"@, seq![3u8, 6u8], seq![1u8, 2u8, 5u8], Class::Stable),
        ("34 Life"@, seq![3u8, 4u8], seq![3u8, 4u8], Class::Explosive),
        ("Assimilation"@, seq![3u8, 4u8, 5u8], seq![4u8, 5u8, 6u8, 7u8], Class::Stable),
        ("Coagulations"@, seq![3u8, 7u8, 8u8], seq![2u8, 3u8, 5u8, 6u8, 7u8, 8u8], Class::Explosive),
        ("Coral"@, seq![3u8], seq![4u8, 5u8, 6u8, 7u8, 8u8], Class::Stable),
        ("Day & Night"@, seq![3u8, 6u8, 7u8, 8u8], seq![3u8, 4u8, 6u8, 7u8, 8u8], Class::Stable),
        ("Diamoeba"@, seq![3u8, 5u8, 6u8, 7u8, 8u8], seq![5u8, 6u8, 7u8, 8u8], Class::Chaotic),
        ("Flakes"@, seq![3u8], seq![0u8, 1u8, 2u8, 3u8, 4u8, 5u8, 6u8, 7u8, 8u8], Class::Explosive),
        ("Gnarl"@, seq![1u8], seq![1u8], Class::Explosive),
        ("HighLife"@, seq![3u8, 6u8], seq![2u8, 3u8], Class::Stable),
        ("Long Life"@, seq![3u8, 4u8, 5u8], seq![5u8], Class::Stable),
        ("Maze"@, seq![3u8], seq![1u8, 2u8, 3u8, 4u8, 5u8], Class::Explosive),
        ("Mazectric"@, seq![3u8], seq![1u8, 2u8, 3u8, 4u8], Class::Stable),
        ("Move"@, seq![3u8, 6u8, 8u8], seq![2u8, 4u8, 5u8], Class::Stable),
        ("Pseudo Life"@, seq![3u8, 5u8, 7u8], seq![2u8, 3u8, 8u8], Class::Chaotic),
        ("Replicator"@, seq![1u8, 3u8, 5u8, 7u8], seq![1u8, 3u8, 5u8, 7u8], Class::Explosive),
        ("Seeds"@, seq![2u8], seq![], Class::Explosive),
        ("Serviettes"@, seq![2u8, 3u8, 4u8], seq![], Class::Explosive),
        ("Stains"@, seq![3u8, 6u8, 7u8, 8u8], seq![2u8, 3u8, 5u8, 6u8, 7u8, 8u8], Class::Stable),
        ("Walled Cities"@, seq![4u8, 5u8, 6u8, 7u8, 8u8], seq![2u8, 3u8, 4u8, 5u8], Class::Stable),
    ]
}

/// The built-in rule presets.
pub fn presets() -> (r: Vec<Preset>)
    ensures
        r@.map_values(|p: Preset| preset_view(p)) == spec_presets(),
{
    let mut v: Vec<Preset> = Vec::new();
    v.push(Preset { name: "Conway's Life", birth: vec![3u8], survive: vec![2u8, 3u8], class: Class::Stable });
    v.push(Preset { name: "2x2", birth: vec![3u8, 6u8], survive: vec![1u8, 2u8, 5u8], class: Class::Stable });
    v.push(Preset { name: "34 Life", birth: vec![3u8, 4u8], survive: vec![3u8, 4u8], class: Class::Explosive });
    v.push(Preset { name: "Assimilation", birth: vec![3u8, 4u8, 5u8], survive: vec![4u8, 5u8, 6u8, 7u8], class: Class::Stable });
    v.push(Preset { name: "Coagulations", birth: vec![3u8, 7u8, 8u8], survive: vec![2u8, 3u8, 5u8, 6u8, 7u8, 8u8], class: Class::Explosive });
    v.push(Preset { name: "Coral", birth: vec![3u8], survive: vec![4u8, 5u8, 6u8, 7u8, 8u8], class: Class::Stable });
    v.push(Preset { name: "Day & Night", birth: vec![3u8, 6u8, 7u8, 8u8], survive: vec![3u8, 4u8, 6u8, 7u8, 8u8], class: Class::Stable });
    v.push(Preset { name: "Diamoeba", birth: vec![3u8, 5u8, 6u8, 7u8, 8u8], survive: vec![5u8, 6u8, 7u8, 8u8], class: Class::Chaotic });
    v.push(Preset { name: "Flakes", birth: vec![3u8], survive: vec![0u8, 1u8, 2u8, 3u8, 4u8, 5u8, 6u8, 7u8, 8u8], class: Class::Explosive });
    v.push(Preset { name: "Gnarl", birth: vec![1u8], survive: vec![1u8], class: Class::Explosive });
    v.push(Preset { name: "HighLife", birth: vec![3u8, 6u8], survive: vec![2u8, 3u8], class: Class::Stable });
    v.push(Preset { name: "Long Life", birth: vec![3u8, 4u8, 5u8], survive: vec![5u8], class: Class::Stable });
    v.push(Preset { name: "Maze", birth: vec![3u8], survive: vec![1u8, 2u8, 3u8, 4u8, 5u8], class: Class::Explosive });
    v.push(Preset { name: "Mazectric", birth: vec![3u8], survive: vec![1u8, 2u8, 3u8, 4u8], class: Class::Stable });
    v.push(Preset { name: "Move", birth: vec![3u8, 6u8, 8u8], survive: vec![2u8, 4u8, 5u8], class: Class::Stable });
    v.push(Preset { name: "Pseudo Life", birth: vec![3u8, 5u8, 7u8], survive: vec![2u8, 3u8, 8u8], class: Class::Chaotic });
    v.push(Preset { name: "Replicator", birth: vec![1u8, 3u8, 5u8, 7u8], survive: vec![1u8, 3u8, 5u8, 7u8], class: Class::Explosive });
    v.push(Preset { name: "Seeds", birth: vec![2u8], survive: Vec::new(), class: Class::Explosive });
    v.push(Preset { name: "Serviettes", birth: vec![2u8, 3u8, 4u8], survive: Vec::new(), class: Class::Explosive });
    v.push(Preset { name: "Stains", birth: vec![3u8, 6u8, 7u8, 8u8], survive: vec![2u8, 3u8, 5u8, 6u8, 7u8, 8u8], class: Class::Stable });
    v.push(Preset { name: "Walled Cities", birth: vec![4u8, 5u8, 6u8, 7u8, 8u8], survive: vec![2u8, 3u8, 4u8, 5u8], class: Class::Stable });
    assert(v@.map_values(|p: Preset| preset_view(p)) =~~= spec_presets());
    v
}

/// Every count of `p` is a neighbour count (at most 8).
pub open spec fn preset_counts_ok(p: Preset) -> bool {
    &&& forall|i: int| 0 <= i < p.birth@.len() ==> p.birth@[i] <= 8
    &&& forall|i: int| 0 <= i < p.survive@.len() ==> p.survive@[i] <= 8
}

/// The rule of a preset.
pub fn preset_rule(preset: &Preset) -> (rule: RuleSet)
    requires
        preset_counts_ok(*preset),
    ensures
        rule.birth@ == table_of(preset.birth@),
        rule.survive@ == table_of(preset.survive@),
{
    RuleSet::from_counts(preset.birth.as_slice(), preset.survive.as_slice())
}

/// No built-in preset is a B0 rule, and every count of every preset is a
/// neighbour count.
pub proof fn lemma_presets_well_formed()
    ensures
        forall|i: int|
            0 <= i < spec_presets().len() ==> !(#[trigger] spec_presets()[i]).1.contains(0u8) && (
            forall|j: int| 0 <= j < spec_presets()[i].1.len() ==> spec_presets()[i].1[j] <= 8) && (
            forall|j: int| 0 <= j < spec_presets()[i].2.len() ==> spec_presets()[i].2[j] <= 8),
{
    let ps = spec_presets();
    assert forall|i: int| 0 <= i < ps.len() implies !(#[trigger] ps[i]).1.contains(0u8) && (
    forall|j: int| 0 <= j < ps[i].1.len() ==> ps[i].1[j] <= 8) && (
    forall|j: int| 0 <= j < ps[i].2.len() ==> ps[i].2[j] <= 8) by {
        assert(forall|j: int| 0 <= j < ps[i].1.len() ==> 1 <= #[trigger] ps[i].1[j] <= 8);
        assert(forall|j: int| 0 <= j < ps[i].2.len() ==> #[trigger] ps[i].2[j] <= 8);
    }
}


/// `p`'s counts give `rule`'s tables.
pub open spec fn preset_is(p: PresetSpec, rule: RuleSet) -> bool {
    table_of(p.1) == rule.birth@ && table_of(p.2) == rule.survive@
}

/// Index of the first preset at or after `k` whose rule is `rule`.
pub open spec fn preset_from(rule: RuleSet, k: nat) -> Option<nat>
    decreases spec_presets().len() - k,
{
    if k >= spec_presets().len() {
        None
    } else if preset_is(spec_presets()[k as int], rule) {
        Some(k)
    } else {
        preset_from(rule, k + 1)
    }
}

/// The name and class shown for `rule`: those of the first preset with that
/// rule, or "Custom" and no class.
pub fn preset_label(rule: &RuleSet) -> (r: (&'static str, Option<Class>))
    ensures
        match preset_from(*rule, 0) {
            Some(k) => r.0@ == spec_presets()[k as int].0 && r.1 == Some(spec_presets()[k as int].3),
            None => r.0@ == "Custom"@ && r.1 == None::<Class>,
        },
{
    let ps = presets();
    proof {
        lemma_presets_well_formed();
    }
    let mut k: usize = 0;
    while k < ps.len()
        invariant
            k <= ps@.len() == spec_presets().len(),
            ps@.map_values(|p: Preset| preset_view(p)) == spec_presets(),
            preset_from(*rule, 0) == preset_from(*rule, k as nat),
        decreases ps.len() - k,
    {
        let p = &ps[k];
        assert(preset_view(ps@[k as int]) == spec_presets()[k as int]);
        assert(preset_counts_ok(*p)) by {
            assert(forall|j: int| 0 <= j < p.birth@.len() ==> p.birth@[j] == spec_presets()[k as int].1[j]);
            assert(forall|j: int| 0 <= j < p.survive@.len() ==> p.survive@[j] == spec_presets()[k as int].2[j]);
        }
        let r = preset_rule(p);
        if r == *rule {
            return (p.name, Some(p.class));
        }
        k += 1;
    }
    ("Custom", None)
}


/// What rule text reads as is never a B0 rule, and text with a bounded-grid
/// suffix (`:`) is refused.
pub proof fn lemma_rule_text_refusals(text: Seq<char>)
    ensures
        rule_text_spec(text) matches Ok((b, s)) ==> b.len() == 9 && s.len() == 9 && !b[0],
        lower_all(trim(text)).contains(':') ==> rule_text_spec(text) == Err::<(Seq<bool>, Seq<bool>), Seq<char>>(msg_bounded()),
{
}

proof fn lemma_skip_ws_lower(s: Seq<char>)
    ensures
        skip_ws(lower_all(s)) == lower_all(skip_ws(s)),
    decreases s.len(),
{
    let l = lower_all(s);
    if s.len() > 0 {
        assert(l[0] == lower(s[0]));
        assert(is_ws(lower(s[0])) == is_ws(s[0]));
        if is_ws(s[0]) {
            assert(l.drop_first() =~= lower_all(s.drop_first()));
            lemma_skip_ws_lower(s.drop_first());
        }
    } else {
        assert(l =~= s);
    }
}

proof fn lemma_skip_ws_end_lower(s: Seq<char>)
    ensures
        skip_ws_end(lower_all(s)) == lower_all(skip_ws_end(s)),
    decreases s.len(),
{
    let l = lower_all(s);
    if s.len() > 0 {
        assert(l.last() == lower(s.last()));
        assert(is_ws(lower(s.last())) == is_ws(s.last()));
        if is_ws(s.last()) {
            assert(l.drop_last() =~= lower_all(s.drop_last()));
            lemma_skip_ws_end_lower(s.drop_last());
        }
    } else {
        assert(l =~= s);
    }
}

/// Letter case does not matter in rule text: `b3/s23` reads as `B3/S23`.
pub proof fn lemma_rule_text_any_case(text: Seq<char>)
    ensures
        rule_text_spec(lower_all(text)) == rule_text_spec(text),
{
    lemma_skip_ws_lower(text);
    lemma_skip_ws_end_lower(skip_ws(text));
    let t = trim(text);
    assert(trim(lower_all(text)) == lower_all(t));
    assert(lower_all(lower_all(t)) =~= lower_all(t));
}


/// ASCII lower case mapped to upper case, every other character kept.
pub open spec fn upper(c: char) -> char {
    if 'a' <= c <= 'z' {
        ((c as u32) - 32) as char
    } else {
        c
    }
}

/// `str::to_ascii_uppercase` over a whole text.
pub open spec fn upper_all(s: Seq<char>) -> Seq<char> {
    s.map_values(|c: char| upper(c))
}

/// The tables rule text reads as, if it reads.
pub open spec fn tables_read(r: Result<(Seq<bool>, Seq<bool>), Seq<char>>) -> Option<(Seq<bool>, Seq<bool>)> {
    match r {
        Ok(t) => Some(t),
        Err(_) => None,
    }
}

/// Every character of `d` is an ASCII digit.
pub open spec fn ascii_digits(d: Seq<char>) -> bool {
    forall|i: int| 0 <= i < d.len() ==> '0' <= #[trigger] d[i] <= '9'
}

proof fn lemma_skip_ws_upper(s: Seq<char>)
    ensures
        skip_ws(upper_all(s)) == upper_all(skip_ws(s)),
    decreases s.len(),
{
    let l = upper_all(s);
    if s.len() > 0 {
        assert(l[0] == upper(s[0]));
        assert(is_ws(upper(s[0])) == is_ws(s[0]));
        if is_ws(s[0]) {
            assert(l.drop_first() =~= upper_all(s.drop_first()));
            lemma_skip_ws_upper(s.drop_first());
        }
    } else {
        assert(l =~= s);
    }
}

proof fn lemma_skip_ws_end_upper(s: Seq<char>)
    ensures
        skip_ws_end(upper_all(s)) == upper_all(skip_ws_end(s)),
    decreases s.len(),
{
    let l = upper_all(s);
    if s.len() > 0 {
        assert(l.last() == upper(s.last()));
        assert(is_ws(upper(s.last())) == is_ws(s.last()));
        if is_ws(s.last()) {
            assert(l.drop_last() =~= upper_all(s.drop_last()));
            lemma_skip_ws_end_upper(s.drop_last());
        }
    } else {
        assert(l =~= s);
    }
}

/// Stripping leading white space from `u + x`.
proof fn lemma_skip_ws_concat(u: Seq<char>, x: Seq<char>)
    ensures
        skip_ws(u + x) == if skip_ws(u).len() > 0 {
            skip_ws(u) + x
        } else {
            skip_ws(x)
        },
    decreases u.len(),
{
    if u.len() == 0 {
        assert(u + x =~= x);
    } else {
        assert((u + x)[0] == u[0]);
        if is_ws(u[0]) {
            assert((u + x).drop_first() =~= u.drop_first() + x);
            lemma_skip_ws_concat(u.drop_first(), x);
        }
    }
}

/// Spaces around rule text are trimmed away.
proof fn lemma_trim_padded(x: Seq<char>)
    ensures
        trim(seq![' '] + x + seq![' ']) == trim(x),
{
    let p = seq![' '] + x + seq![' '];
    assert(p.drop_first() =~= x + seq![' ']);
    assert(skip_ws(p) == skip_ws(x + seq![' ']));
    lemma_skip_ws_concat(x, seq![' ']);
    if skip_ws(x).len() > 0 {
        let y = skip_ws(x) + seq![' '];
        assert(y.drop_last() =~= skip_ws(x));
        assert(skip_ws_end(y) == skip_ws_end(skip_ws(x)));
    } else {
        let sp = seq![' '];
        assert(sp.drop_first() =~= Seq::<char>::empty());
        assert(skip_ws(sp) == skip_ws(Seq::<char>::empty()));
        assert(skip_ws(x) =~= Seq::<char>::empty());
    }
}

/// Letter case and surrounding spaces do not matter in rule text: the text
/// padded with spaces and in upper case reads exactly as the text does.
pub proof fn lemma_rule_text_case_and_spaces(text: Seq<char>)
    ensures
        rule_text_spec(seq![' '] + upper_all(text) + seq![' ']) == rule_text_spec(text),
{
    lemma_trim_padded(upper_all(text));
    lemma_skip_ws_upper(text);
    lemma_skip_ws_end_upper(skip_ws(text));
    let t = trim(text);
    assert(trim(upper_all(text)) == upper_all(t));
    assert(lower_all(upper_all(t)) =~= lower_all(t)) by {
        assert forall|i: int| 0 <= i < t.len() implies lower(upper(t[i])) == lower(t[i]) by {}
    }
}

/// Rule text whose lowered, trimmed form is `first/second`, neither holding
/// `/` or `:`, reads through `birth_survive_parts(first, second)`.
proof fn lemma_two_parts(first: Seq<char>, second: Seq<char>)
    requires
        forall|i: int| 0 <= i < first.len() ==> #[trigger] first[i] != '/' && first[i] != ':',
        forall|i: int| 0 <= i < second.len() ==> #[trigger] second[i] != '/' && second[i] != ':',
    ensures
        split(first + seq!['/'] + second, '/') == seq![first, second],
        !(first + seq!['/'] + second).contains(':'),
{
    let t = first + seq!['/'] + second;
    assert forall|j: int| 0 <= j < first.len() implies t[j] != '/' by {
        assert(t[j] == first[j]);
    }
    lemma_find_is(t, '/', first.len() as int);
    assert(t.take(first.len() as int) =~= first);
    assert(t.skip(first.len() + 1 as int) =~= second);
    lemma_find_is(second, '/', second.len() as int);
    assert(split(second, '/') == seq![second]);
    assert(split(t, '/') =~= seq![first, second]);
    if t.contains(':') {
        let j = choose|j: int| 0 <= j < t.len() && t[j] == ':';
        if j < first.len() {
            assert(t[j] == first[j]);
        } else if j > first.len() {
            assert(t[j] == second[j - first.len() - 1]);
        }
    }
}

/// Digits are their own lower case and hold neither `/` nor `:`.
proof fn lemma_digits_plain(d: Seq<char>)
    requires
        ascii_digits(d),
    ensures
        lower_all(d) == d,
        forall|i: int| 0 <= i < d.len() ==> #[trigger] d[i] != '/' && d[i] != ':' && !is_ws(d[i]),
{
    assert(lower_all(d) =~= d);
}

/// The three spellings of a rule read alike: `B{b}/S{s}`, `S{s}/B{b}` and
/// the legacy `{s}/{b}` give the same tables, or are all refused.
pub proof fn lemma_rule_spellings(b: Seq<char>, s: Seq<char>)
    requires
        ascii_digits(b),
        ascii_digits(s),
    ensures
        tables_read(rule_text_spec(seq!['B'] + b + seq!['/', 'S'] + s)) == tables_read(
            rule_text_spec(seq!['S'] + s + seq!['/', 'B'] + b),
        ),
        tables_read(rule_text_spec(seq!['S'] + s + seq!['/', 'B'] + b)) == tables_read(
            rule_text_spec(s + seq!['/'] + b),
        ),
{
    lemma_digits_plain(b);
    lemma_digits_plain(s);
    let fb = seq!['b'] + b;
    let fs = seq!['s'] + s;
    assert forall|i: int| 0 <= i < fb.len() implies #[trigger] fb[i] != '/' && fb[i] != ':' by {
        if i > 0 {
            assert(fb[i] == b[i - 1]);
        }
    }
    assert forall|i: int| 0 <= i < fs.len() implies #[trigger] fs[i] != '/' && fs[i] != ':' by {
        if i > 0 {
            assert(fs[i] == s[i - 1]);
        }
    }
    // B{b}/S{s}
    let t1 = seq!['B'] + b + seq!['/', 'S'] + s;
    assert(!is_ws(t1[0]) && !is_ws(t1.last())) by {
        if s.len() > 0 {
            assert(t1.last() == s[s.len() - 1]);
        }
    }
    assert(skip_ws(t1) == t1);
    assert(skip_ws_end(t1) == t1);
    assert(lower_all(t1) =~= fb + seq!['/'] + fs) by {
        assert forall|i: int| 0 <= i < t1.len() implies lower(t1[i]) == (fb + seq!['/'] + fs)[i] by {
            if 1 <= i < 1 + b.len() {
                assert(t1[i] == b[i - 1]);
            } else if i >= 3 + b.len() {
                assert(t1[i] == s[i - 3 - b.len()]);
            }
        }
    }
    lemma_two_parts(fb, fs);
    assert(fb.drop_first() =~= b && fs.drop_first() =~= s);
    // S{s}/B{b}
    let t2 = seq!['S'] + s + seq!['/', 'B'] + b;
    assert(!is_ws(t2[0]) && !is_ws(t2.last())) by {
        if b.len() > 0 {
            assert(t2.last() == b[b.len() - 1]);
        }
    }
    assert(skip_ws(t2) == t2);
    assert(skip_ws_end(t2) == t2);
    assert(lower_all(t2) =~= fs + seq!['/'] + fb) by {
        assert forall|i: int| 0 <= i < t2.len() implies lower(t2[i]) == (fs + seq!['/'] + fb)[i] by {
            if 1 <= i < 1 + s.len() {
                assert(t2[i] == s[i - 1]);
            } else if i >= 3 + s.len() {
                assert(t2[i] == b[i - 3 - s.len()]);
            }
        }
    }
    lemma_two_parts(fs, fb);
    // {s}/{b}
    let t3 = s + seq!['/'] + b;
    assert(!is_ws(t3[0]) && !is_ws(t3.last())) by {
        if s.len() > 0 {
            assert(t3[0] == s[0]);
        }
        if b.len() > 0 {
            assert(t3.last() == b[b.len() - 1]);
        }
    }
    assert(skip_ws(t3) == t3);
    assert(skip_ws_end(t3) == t3);
    assert(lower_all(t3) =~= t3) by {
        assert forall|i: int| 0 <= i < t3.len() implies lower(t3[i]) == t3[i] by {
            if i < s.len() {
                assert(t3[i] == s[i]);
            } else if i > s.len() {
                assert(t3[i] == b[i - s.len() - 1]);
            }
        }
    }
    lemma_two_parts(s, b);
    if s.len() > 0 {
        assert(s[0] != 'b' && s[0] != 's');
    }
    assert(birth_survive_parts(s, b) == (b, s));
    assert(birth_survive_parts(fb, fs) == (b, s));
    assert(birth_survive_parts(fs, fb) == (b, s));
}

} // verus!
