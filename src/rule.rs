//! Reading and rewriting RRULE text: `KEY=VALUE` parts separated by `;`.
use vstd::prelude::*;
use vstd::string::*;

use crate::time::{day_of, weekday_index};

verus! {

pub open spec fn weekly_key() -> Seq<char> {
    seq!['F', 'R', 'E', 'Q', '=', 'W', 'E', 'E', 'K', 'L', 'Y']
}

pub open spec fn byday_key() -> Seq<char> {
    seq!['B', 'Y', 'D', 'A', 'Y', '=']
}

pub open spec fn until_key() -> Seq<char> {
    seq!['U', 'N', 'T', 'I', 'L', '=']
}

/// Whether `pat` occurs in `s` at `i`.
pub open spec fn has_at(s: Seq<char>, pat: Seq<char>, i: int) -> bool {
    0 <= i && i + pat.len() <= s.len() && s.subrange(i, i + pat.len()) == pat
}

pub open spec fn contains_text(s: Seq<char>, pat: Seq<char>) -> bool {
    exists|i: int| has_at(s, pat, i)
}

/// Whether a rule asks for weekly repetition.
pub open spec fn is_weekly(rule: Seq<char>) -> bool {
    contains_text(rule, weekly_key())
}

/// The first position at or after `i` that holds `c`, or the length.
pub open spec fn next_sep(s: Seq<char>, c: char, i: int) -> int
    decreases s.len() - i,
{
    if i >= s.len() {
        s.len() as int
    } else if s[i] == c {
        i
    } else {
        next_sep(s, c, i + 1)
    }
}

/// Whether a `;`-separated part begins at `i`.
pub open spec fn part_start(s: Seq<char>, i: int) -> bool {
    i == 0 || (0 < i <= s.len() && s[i - 1] == ';')
}

/// The start of the first part at or after `i` that begins with `key`.
pub open spec fn first_keyed_part(s: Seq<char>, key: Seq<char>, i: int) -> Option<int>
    decreases s.len() + 1 - i,
{
    if i > s.len() {
        None
    } else if part_start(s, i) && has_at(s, key, i) {
        Some(i)
    } else {
        first_keyed_part(s, key, i + 1)
    }
}

/// The weekday a two-letter code names, Monday being 0.
pub open spec fn weekday_code(t: Seq<char>) -> Option<int> {
    if t.len() != 2 {
        None
    } else if t[0] == 'M' && t[1] == 'O' {
        Some(0)
    } else if t[0] == 'T' && t[1] == 'U' {
        Some(1)
    } else if t[0] == 'W' && t[1] == 'E' {
        Some(2)
    } else if t[0] == 'T' && t[1] == 'H' {
        Some(3)
    } else if t[0] == 'F' && t[1] == 'R' {
        Some(4)
    } else if t[0] == 'S' && t[1] == 'A' {
        Some(5)
    } else if t[0] == 'S' && t[1] == 'U' {
        Some(6)
    } else {
        None
    }
}

/// The end of the `,`-separated item that begins at `i`, within `[i, e]`.
pub open spec fn item_end(s: Seq<char>, i: int, e: int) -> int {
    let n = next_sep(s, ',', i);
    if n < e {
        n
    } else {
        e
    }
}

/// The weekdays named by the `,`-separated items of `s[i..e]`, unknown codes skipped.
pub open spec fn day_list(s: Seq<char>, i: int, e: int) -> Seq<int>
    decreases e + 1 - i,
{
    if i > e {
        seq![]
    } else {
        let t = item_end(s, i, e);
        let here = match weekday_code(s.subrange(i, t)) {
            Some(w) => seq![w],
            None => seq![],
        };
        if t < i {
            here
        } else {
            here + day_list(s, t + 1, e)
        }
    }
}

/// The weekdays a weekly rule repeats on: its BYDAY list, or the start's own weekday.
pub open spec fn target_weekdays(rule: Seq<char>, start: int) -> Seq<int> {
    match first_keyed_part(rule, byday_key(), 0) {
        Some(p) => day_list(rule, p + 6, next_sep(rule, ';', p + 6)),
        None => seq![weekday_index(day_of(start))],
    }
}

/// Whether `part` begins with `key`.
pub open spec fn starts_with(part: Seq<char>, key: Seq<char>) -> bool {
    part.len() >= key.len() && part.subrange(0, key.len() as int) == key
}

/// The parts from `i` on, each `UNTIL=` part given the value `stamp`.
pub open spec fn rewrite_parts(s: Seq<char>, i: int, stamp: Seq<char>) -> Seq<char>
    decreases s.len() + 1 - i,
{
    let e = next_sep(s, ';', i);
    if i < 0 || i > s.len() || e < i || e > s.len() {
        seq![]
    } else {
        let part = s.subrange(i, e);
        let new_part = if starts_with(part, until_key()) {
            until_key() + stamp
        } else {
            part
        };
        if e >= s.len() {
            new_part
        } else {
            new_part + seq![';'] + rewrite_parts(s, e + 1, stamp)
        }
    }
}

/// A rule made to end at `stamp`: an existing UNTIL value is replaced, else one is appended.
pub open spec fn truncated_rule(rule: Seq<char>, stamp: Seq<char>) -> Seq<char> {
    if first_keyed_part(rule, until_key(), 0) is Some {
        rewrite_parts(rule, 0, stamp)
    } else {
        rule + seq![';'] + until_key() + stamp
    }
}

proof fn lemma_next_sep_bounds(s: Seq<char>, c: char, i: int)
    requires
        0 <= i,
    ensures
        i <= s.len() ==> i <= next_sep(s, c, i) <= s.len(),
        i > s.len() ==> next_sep(s, c, i) == s.len(),
        next_sep(s, c, i) < s.len() ==> s[next_sep(s, c, i)] == c,
        forall|k: int| i <= k < next_sep(s, c, i) ==> s[k] != c,
    decreases s.len() - i,
{
    if i < s.len() && s[i] != c {
        lemma_next_sep_bounds(s, c, i + 1);
    }
}

/// Whether `pat` occurs in `s` at `i`.
fn text_has_at(s: &str, n: usize, pat: &str, m: usize, i: usize) -> (r: bool)
    requires
        n == s@.len(),
        m == pat@.len(),
    ensures
        r == has_at(s@, pat@, i as int),
{
    if i > n || m > n - i {
        return false;
    }
    let mut j: usize = 0;
    while j < m
        invariant
            j <= m,
            i + m <= n,
            n == s@.len(),
            m == pat@.len(),
            forall|k: int| 0 <= k < j ==> s@[i + k] == pat@[k],
        decreases m - j,
    {
        if s.get_char(i + j) != pat.get_char(j) {
            assert(s@.subrange(i as int, i + m)[j as int] != pat@[j as int]);
            return false;
        }
        j = j + 1;
    }
    assert(s@.subrange(i as int, i + m) =~= pat@);
    true
}

/// Whether `pat` occurs anywhere in `s`.
fn text_contains(s: &str, pat: &str) -> (r: bool)
    ensures
        r == contains_text(s@, pat@),
{
    let n = s.unicode_len();
    let m = pat.unicode_len();
    if m > n {
        assert forall|i: int| !has_at(s@, pat@, i) by {}
        return false;
    }
    let mut i: usize = 0;
    while i <= n - m
        invariant
            m <= n,
            n == s@.len(),
            m == pat@.len(),
            forall|k: int| 0 <= k < i ==> !has_at(s@, pat@, k),
        decreases n - m + 1 - i,
    {
        if text_has_at(s, n, pat, m, i) {
            return true;
        }
        if i == n - m {
            assert forall|k: int| !has_at(s@, pat@, k) by {
                if 0 <= k <= i {
                }
            }
            return false;
        }
        i = i + 1;
    }
    assert forall|k: int| !has_at(s@, pat@, k) by {
        if 0 <= k < i {
        }
    }
    false
}

/// The first position at or after `i` that holds `c`, or the length.
fn find_sep(s: &str, n: usize, c: char, i: usize) -> (r: usize)
    requires
        n == s@.len(),
        i <= n,
    ensures
        r == next_sep(s@, c, i as int),
        i <= r <= n,
{
    let mut j = i;
    while j < n
        invariant
            i <= j <= n,
            n == s@.len(),
            next_sep(s@, c, j as int) == next_sep(s@, c, i as int),
        decreases n - j,
    {
        if s.get_char(j) == c {
            return j;
        }
        j = j + 1;
    }
    j
}

/// The start of the first `;`-separated part that begins with `key`.
fn find_keyed_part(s: &str, n: usize, key: &str, m: usize) -> (r: Option<usize>)
    requires
        n == s@.len(),
        m == key@.len(),
    ensures
        r matches Some(p) ==> first_keyed_part(s@, key@, 0) == Some(p as int),
        r is None ==> first_keyed_part(s@, key@, 0) is None,
{
    let mut i: usize = 0;
    while i <= n
        invariant
            i <= n + 1,
            n == s@.len(),
            m == key@.len(),
            first_keyed_part(s@, key@, i as int) == first_keyed_part(s@, key@, 0),
        decreases n + 1 - i,
    {
        let starts = i == 0 || s.get_char(i - 1) == ';';
        if starts && text_has_at(s, n, key, m, i) {
            return Some(i);
        }
        if i == n {
            assert(first_keyed_part(s@, key@, n + 1) is None);
            return None;
        }
        i = i + 1;
    }
    None
}

/// The weekday a two-letter day code names, Monday being 0.
pub fn parse_weekday(day_str: &str) -> (r: Option<u8>)
    ensures
        r matches Some(w) ==> weekday_code(day_str@) == Some(w as int),
        r is None ==> weekday_code(day_str@) is None,
{
    if day_str.unicode_len() != 2 {
        return None;
    }
    let a = day_str.get_char(0);
    let b = day_str.get_char(1);
    if a == 'M' && b == 'O' {
        Some(0)
    } else if a == 'T' && b == 'U' {
        Some(1)
    } else if a == 'W' && b == 'E' {
        Some(2)
    } else if a == 'T' && b == 'H' {
        Some(3)
    } else if a == 'F' && b == 'R' {
        Some(4)
    } else if a == 'S' && b == 'A' {
        Some(5)
    } else if a == 'S' && b == 'U' {
        Some(6)
    } else {
        None
    }
}

pub open spec fn as_ints(v: Seq<u8>) -> Seq<int> {
    v.map_values(|x: u8| x as int)
}

/// The weekdays named in `s[i..e]`.
fn parse_day_list(s: &str, n: usize, i: usize, e: usize) -> (r: Vec<u8>)
    requires
        n == s@.len(),
        i <= e <= n,
    ensures
        as_ints(r@) == day_list(s@, i as int, e as int),
{
    let mut out: Vec<u8> = Vec::new();
    let mut j = i;
    while j <= e
        invariant
            i <= j <= e + 1,
            e <= n,
            n == s@.len(),
            as_ints(out@) + day_list(s@, j as int, e as int) == day_list(s@, i as int, e as int),
        decreases e + 1 - j,
    {
        let sep = find_sep(s, n, ',', j);
        let t = if sep < e {
            sep
        } else {
            e
        };
        let item = s.substring_char(j, t);
        let ghost before = out@;
        match parse_weekday(item) {
            Some(w) => {
                out.push(w);
            },
            None => {},
        }
        proof {
            let here = match weekday_code(s@.subrange(j as int, t as int)) {
                Some(w) => seq![w],
                None => seq![],
            };
            assert(as_ints(out@) =~= as_ints(before) + here);
            assert(day_list(s@, j as int, e as int) == here + day_list(s@, t + 1, e as int));
            assert(as_ints(out@) + day_list(s@, t + 1, e as int) =~= as_ints(before) + day_list(
                s@,
                j as int,
                e as int,
            ));
        }
        if t == e {
            assert(day_list(s@, t + 1, e as int) =~= Seq::<int>::empty());
            assert(as_ints(out@) =~= as_ints(out@) + day_list(s@, t + 1, e as int));
            return out;
        }
        j = t + 1;
    }
    assert(day_list(s@, j as int, e as int) =~= Seq::<int>::empty());
    assert(as_ints(out@) =~= as_ints(out@) + day_list(s@, j as int, e as int));
    out
}

/// The weekdays a weekly rule repeats on: its BYDAY list, or the start's weekday.
pub fn rule_weekdays(rule: &str, start_weekday: u8, Ghost(start): Ghost<int>) -> (r: Vec<u8>)
    requires
        start_weekday == weekday_index(day_of(start)),
    ensures
        as_ints(r@) == target_weekdays(rule@, start),
{
    let n = rule.unicode_len();
    let key = "BYDAY=";
    proof {
        reveal_strlit("BYDAY=");
        assert(key@ =~= byday_key());
    }
    match find_keyed_part(rule, n, key, 6) {
        Some(p) => {
            proof {
                assert(has_at(rule@, byday_key(), p as int)) by {
                    lemma_first_keyed_part_found(rule@, byday_key(), 0);
                }
            }
            let e = find_sep(rule, n, ';', p + 6);
            parse_day_list(rule, n, p + 6, e)
        },
        None => {
            let v = vec![start_weekday];
            assert(as_ints(v@) =~= seq![weekday_index(day_of(start))]);
            v
        },
    }
}

proof fn lemma_first_keyed_part_found(s: Seq<char>, key: Seq<char>, i: int)
    requires
        0 <= i,
        first_keyed_part(s, key, i) is Some,
    ensures
        has_at(s, key, first_keyed_part(s, key, i)->0),
        part_start(s, first_keyed_part(s, key, i)->0),
    decreases s.len() + 1 - i,
{
    if !(i > s.len()) && !(part_start(s, i) && has_at(s, key, i)) {
        lemma_first_keyed_part_found(s, key, i + 1);
    }
}

/// Whether a rule asks for weekly repetition (it holds `FREQ=WEEKLY`).
pub fn rule_is_weekly(rule: &str) -> (r: bool)
    ensures
        r == is_weekly(rule@),
{
    let key = "FREQ=WEEKLY";
    proof {
        reveal_strlit("FREQ=WEEKLY");
        assert(key@ =~= weekly_key());
    }
    text_contains(rule, key)
}

/// Makes a rule end at `stamp`: an existing UNTIL part gets that value, else one is added.
pub fn truncate_rule(rule: &str, stamp: &str) -> (r: String)
    ensures
        r@ == truncated_rule(rule@, stamp@),
{
    let n = rule.unicode_len();
    let key = "UNTIL=";
    let sep = ";";
    proof {
        reveal_strlit("UNTIL=");
        reveal_strlit(";");
        assert(key@ =~= until_key());
        assert(sep@ =~= seq![';']);
    }
    match find_keyed_part(rule, n, key, 6) {
        Some(_) => rewrite_until(rule, n, stamp),
        None => {
            let mut out = String::from_str(rule);
            out.append(sep);
            out.append(key);
            out.append(stamp);
            out
        },
    }
}

/// Rewrites every `UNTIL=` part of a rule to the value `stamp`.
fn rewrite_until(s: &str, n: usize, stamp: &str) -> (r: String)
    requires
        n == s@.len(),
    ensures
        r@ == rewrite_parts(s@, 0, stamp@),
{
    let key = "UNTIL=";
    let sep = ";";
    proof {
        reveal_strlit("UNTIL=");
        reveal_strlit(";");
        assert(key@ =~= until_key());
        assert(sep@ =~= seq![';']);
    }
    let mut out = String::new();
    assert(out@ + rewrite_parts(s@, 0, stamp@) =~= rewrite_parts(s@, 0, stamp@));
    let mut i: usize = 0;
    while i <= n
        invariant
            i <= n,
            n == s@.len(),
            key@ == until_key(),
            sep@ == seq![';'],
            out@ + rewrite_parts(s@, i as int, stamp@) == rewrite_parts(s@, 0, stamp@),
        decreases n + 1 - i,
    {
        let e = find_sep(s, n, ';', i);
        proof {
            lemma_next_sep_bounds(s@, ';', i as int);
            assert(s@.subrange(i as int, e as int).len() >= 6 ==> s@.subrange(i as int, e as int).subrange(0, 6)
                =~= s@.subrange(i as int, i + 6));
        }
        let is_until = e - i >= 6 && text_has_at(s, n, key, 6, i);
        let ghost before = out@;
        let ghost part = s@.subrange(i as int, e as int);
        let ghost new_part = if starts_with(part, until_key()) {
            until_key() + stamp@
        } else {
            part
        };
        if is_until {
            out.append(key);
            out.append(stamp);
        } else {
            let p = s.substring_char(i, e);
            out.append(p);
        }
        assert(out@ =~= before + new_part);
        if e == n {
            assert(rewrite_parts(s@, i as int, stamp@) == new_part);
            return out;
        }
        out.append(sep);
        assert(rewrite_parts(s@, i as int, stamp@) == new_part + seq![';'] + rewrite_parts(s@, e + 1, stamp@));
        assert(out@ + rewrite_parts(s@, e + 1, stamp@) =~= before + rewrite_parts(s@, i as int, stamp@));
        i = e + 1;
    }
    out
}

/// Whether two texts are equal.
pub(crate) fn text_eq(a: &str, b: &str) -> (r: bool)
    ensures
        r == (a@ == b@),
{
    let n = a.unicode_len();
    let m = b.unicode_len();
    if n != m {
        return false;
    }
    let r = text_has_at(a, n, b, m, 0);
    proof {
        assert(a@ =~= a@.subrange(0, m as int));
    }
    r
}

/// The text contains no `;`.
pub open spec fn no_semi(x: Seq<char>) -> bool {
    forall|i: int| 0 <= i < x.len() ==> x[i] != ';'
}

/// The value of the part at `p`, after its six-character key.
pub open spec fn until_value(t: Seq<char>, p: int) -> Seq<char> {
    t.subrange(p + 6, next_sep(t, ';', p + 6))
}

/// Every `UNTIL=` part of `t` has the value `stamp`.
pub open spec fn until_values_are(t: Seq<char>, stamp: Seq<char>) -> bool {
    forall|p: int| part_start(t, p) && #[trigger] has_at(t, until_key(), p) ==> until_value(t, p) == stamp
}

proof fn lemma_next_sep_concat(x: Seq<char>, y: Seq<char>, i: int)
    requires
        0 <= i,
    ensures
        i > x.len() ==> next_sep(x + seq![';'] + y, ';', i) == next_sep(y, ';', i - x.len() - 1)
            + x.len() + 1,
        i <= x.len() && (forall|k: int| i <= k < x.len() ==> x[k] != ';') ==> next_sep(
            x + seq![';'] + y,
            ';',
            i,
        ) == x.len(),
    decreases (x + seq![';'] + y).len() - i,
{
    let z = x + seq![';'] + y;
    if i < z.len() {
        if i < x.len() {
            assert(z[i] == x[i]);
        } else if i > x.len() {
            assert(z[i] == y[i - x.len() - 1]);
        } else {
            assert(z[i] == ';');
        }
        if z[i] != ';' {
            lemma_next_sep_concat(x, y, i + 1);
        }
    }
}

proof fn lemma_next_sep_none(x: Seq<char>, i: int)
    requires
        0 <= i <= x.len(),
        forall|k: int| i <= k < x.len() ==> x[k] != ';',
    ensures
        next_sep(x, ';', i) == x.len(),
    decreases x.len() - i,
{
    if i < x.len() {
        lemma_next_sep_none(x, i + 1);
    }
}

/// A key without `;` does not run over a `;`.
proof fn lemma_has_at_no_semi(t: Seq<char>, p: int, k: int)
    requires
        has_at(t, until_key(), p),
        p <= k < p + 6,
    ensures
        t[k] != ';',
{
    assert(t.subrange(p, p + 6)[k - p] == until_key()[k - p]);
}

/// Parts after the `;` that joins `x` and `y` are the parts of `y`.
proof fn lemma_shifted_part(x: Seq<char>, y: Seq<char>, p: int, stamp: Seq<char>)
    requires
        p > x.len(),
        until_values_are(y, stamp),
        part_start(x + seq![';'] + y, p),
        has_at(x + seq![';'] + y, until_key(), p),
    ensures
        until_value(x + seq![';'] + y, p) == stamp,
{
    let z = x + seq![';'] + y;
    let q = p - x.len() - 1;
    assert(part_start(y, q)) by {
        if q > 0 {
            assert(z[p - 1] == y[q - 1]);
        }
    }
    assert(z.subrange(p, p + 6) =~= y.subrange(q, q + 6));
    assert(has_at(y, until_key(), q));
    lemma_next_sep_concat(x, y, p + 6);
    lemma_next_sep_bounds(y, ';', q + 6);
    assert(z.subrange(p + 6, next_sep(z, ';', p + 6)) =~= y.subrange(q + 6, next_sep(y, ';', q + 6)));
}

/// A single part without `;` whose only `UNTIL=` form is `UNTIL=stamp`.
proof fn lemma_single_part_values(x: Seq<char>, stamp: Seq<char>)
    requires
        no_semi(x),
        starts_with(x, until_key()) ==> x == until_key() + stamp,
    ensures
        until_values_are(x, stamp),
{
    assert forall|p: int| part_start(x, p) && #[trigger] has_at(x, until_key(), p) implies until_value(
        x,
        p,
    ) == stamp by {
        if p > 0 {
            assert(x[p - 1] != ';');
        }
        assert(p == 0);
        assert(x.subrange(0, 6) == until_key());
        assert(starts_with(x, until_key()));
        lemma_next_sep_none(x, 6);
        assert(x.subrange(6, x.len() as int) =~= stamp);
    }
}

proof fn lemma_concat_values(x: Seq<char>, y: Seq<char>, stamp: Seq<char>)
    requires
        no_semi(x),
        starts_with(x, until_key()) ==> x == until_key() + stamp,
        until_values_are(y, stamp),
    ensures
        until_values_are(x + seq![';'] + y, stamp),
{
    let z = x + seq![';'] + y;
    assert forall|p: int| part_start(z, p) && #[trigger] has_at(z, until_key(), p) implies until_value(
        z,
        p,
    ) == stamp by {
        if p > x.len() {
            lemma_shifted_part(x, y, p, stamp);
        } else {
            if p > 0 {
                assert(z[p - 1] == x[p - 1]);
            }
            assert(p == 0);
            if x.len() < 6 {
                lemma_has_at_no_semi(z, 0, x.len() as int);
                assert(z[x.len() as int] == ';');
            }
            assert(x.subrange(0, 6) =~= z.subrange(0, 6));
            assert(starts_with(x, until_key()));
            lemma_next_sep_concat(x, y, 6);
            assert(z.subrange(6, x.len() as int) =~= stamp);
        }
    }
}

proof fn lemma_rewrite_values(s: Seq<char>, i: int, stamp: Seq<char>)
    requires
        0 <= i <= s.len(),
        no_semi(stamp),
    ensures
        until_values_are(rewrite_parts(s, i, stamp), stamp),
    decreases s.len() + 1 - i,
{
    let e = next_sep(s, ';', i);
    lemma_next_sep_bounds(s, ';', i);
    let part = s.subrange(i, e);
    let np = if starts_with(part, until_key()) {
        until_key() + stamp
    } else {
        part
    };
    assert(no_semi(np)) by {
        assert forall|k: int| 0 <= k < np.len() implies np[k] != ';' by {
            if starts_with(part, until_key()) {
                if k >= 6 {
                    assert(np[k] == stamp[k - 6]);
                }
            } else {
                assert(np[k] == s[i + k]);
            }
        }
    }
    assert(starts_with(np, until_key()) ==> np == until_key() + stamp) by {
        if starts_with(np, until_key()) && !starts_with(part, until_key()) {
            assert(np == part);
        }
    }
    if e >= s.len() {
        lemma_single_part_values(np, stamp);
    } else {
        lemma_rewrite_values(s, e + 1, stamp);
        lemma_concat_values(np, rewrite_parts(s, e + 1, stamp), stamp);
    }
}

proof fn lemma_first_keyed_none(s: Seq<char>, key: Seq<char>, i: int, p: int)
    requires
        0 <= i <= p <= s.len(),
        first_keyed_part(s, key, i) is None,
    ensures
        !(part_start(s, p) && has_at(s, key, p)),
    decreases p - i,
{
    if i < p {
        lemma_first_keyed_none(s, key, i + 1, p);
    }
}

/// Every `UNTIL=` part of a truncated rule has exactly the value it was truncated
/// to, when that value holds no `;`.
pub proof fn lemma_truncated_until(rule: Seq<char>, stamp: Seq<char>)
    requires
        no_semi(stamp),
    ensures
        until_values_are(truncated_rule(rule, stamp), stamp),
{
    if first_keyed_part(rule, until_key(), 0) is Some {
        lemma_rewrite_values(rule, 0, stamp);
    } else {
        let y = until_key() + stamp;
        let z = rule + seq![';'] + y;
        assert(rule + seq![';'] + until_key() + stamp =~= z);
        assert forall|k: int| 0 <= k < y.len() implies y[k] != ';' by {
            if k >= 6 {
                assert(y[k] == stamp[k - 6]);
            }
        }
        lemma_single_part_values(y, stamp);
        assert forall|p: int| part_start(z, p) && #[trigger] has_at(z, until_key(), p) implies until_value(
            z,
            p,
        ) == stamp by {
            if p > rule.len() {
                lemma_shifted_part(rule, y, p, stamp);
            } else {
                if p + 6 > rule.len() {
                    lemma_has_at_no_semi(z, p, rule.len() as int);
                    assert(z[rule.len() as int] == ';');
                }
                assert(z.subrange(p, p + 6) =~= rule.subrange(p, p + 6));
                if p > 0 {
                    assert(z[p - 1] == rule[p - 1]);
                }
                lemma_first_keyed_none(rule, until_key(), 0, p);
            }
        }
    }
}

/// The rule has a part that begins with `UNTIL=`.
pub open spec fn has_until_part(t: Seq<char>) -> bool {
    exists|p: int| part_start(t, p) && #[trigger] has_at(t, until_key(), p)
}

/// No position in `[i, j]` begins an `UNTIL=` part, so the search may start after `j`.
proof fn lemma_first_keyed_skip(s: Seq<char>, i: int, j: int)
    requires
        0 <= i <= j + 1,
        forall|p: int| i <= p <= j ==> !(part_start(s, p) && has_at(s, until_key(), p)),
    ensures
        first_keyed_part(s, until_key(), i) == first_keyed_part(s, until_key(), j + 1),
    decreases j + 1 - i,
{
    if i <= j {
        lemma_first_keyed_skip(s, i + 1, j);
    }
}

proof fn lemma_rewrite_has_until(s: Seq<char>, i: int, stamp: Seq<char>)
    requires
        0 <= i <= s.len(),
        first_keyed_part(s, until_key(), i) is Some,
    ensures
        has_until_part(rewrite_parts(s, i, stamp)),
    decreases s.len() + 1 - i,
{
    let e = next_sep(s, ';', i);
    lemma_next_sep_bounds(s, ';', i);
    let part = s.subrange(i, e);
    let key = until_key();
    let r = rewrite_parts(s, i, stamp);
    if starts_with(part, key) {
        let np = key + stamp;
        if e < s.len() {
            assert(r == np + seq![';'] + rewrite_parts(s, e + 1, stamp));
        }
        assert(r.subrange(0, 6) =~= key);
        assert(part_start(r, 0) && has_at(r, key, 0));
    } else {
        assert forall|p: int| i <= p <= e implies !(part_start(s, p) && has_at(s, key, p)) by {
            if part_start(s, p) && has_at(s, key, p) {
                if p > i {
                    assert(s[p - 1] != ';');
                } else if i + 6 <= e {
                    assert(part.subrange(0, 6) =~= s.subrange(i, i + 6));
                } else {
                    lemma_has_at_no_semi(s, i, e);
                }
            }
        }
        lemma_first_keyed_skip(s, i, e);
        if e >= s.len() {
            assert(first_keyed_part(s, key, e + 1) is None);
        }
        let r2 = rewrite_parts(s, e + 1, stamp);
        lemma_rewrite_has_until(s, e + 1, stamp);
        let q = choose|q: int| part_start(r2, q) && #[trigger] has_at(r2, key, q);
        let np = part;
        assert(r == np + seq![';'] + r2);
        let p = np.len() as int + 1 + q;
        assert(part_start(r, p)) by {
            if q > 0 {
                assert(r[p - 1] == r2[q - 1]);
            }
        }
        assert(r.subrange(p, p + 6) =~= r2.subrange(q, q + 6));
        assert(has_at(r, key, p));
    }
}

/// A truncated rule always has an `UNTIL=` part.
pub proof fn lemma_truncated_has_until(rule: Seq<char>, stamp: Seq<char>)
    ensures
        has_until_part(truncated_rule(rule, stamp)),
{
    let t = truncated_rule(rule, stamp);
    if first_keyed_part(rule, until_key(), 0) is Some {
        lemma_rewrite_has_until(rule, 0, stamp);
    } else {
        let p = rule.len() as int + 1;
        assert(t[p - 1] == ';');
        assert(t.subrange(p, p + 6) =~= until_key());
        assert(part_start(t, p) && has_at(t, until_key(), p));
    }
}

} // verus!
