//! the scoring behind the lua api's `system.fuzzy_match`: how well a
//! pattern matches a string; trailing spaces never lead it past the end
//! of either string.

use vstd::prelude::*;

verus! {

/// ascii lowercase of a byte; other bytes are unchanged
pub open spec fn ascii_lower(c: u8) -> u8 {
    if 65 <= c <= 90 {
        (c + 32) as u8
    } else {
        c
    }
}

/// `u8::eq_ignore_ascii_case`
pub fn eq_ignore_ascii_case(a: u8, b: u8) -> (r: bool)
    ensures
        r == (ascii_lower(a) == ascii_lower(b)),
{
    let la = if 65 <= a && a <= 90 { a + 32 } else { a };
    let lb = if 65 <= b && b <= 90 { b + 32 } else { b };
    la == lb
}

/// the index of the first non-space byte of `s` at or after `i`
pub open spec fn skip_spaces(s: Seq<u8>, i: int) -> int
    decreases s.len() - i,
{
    if 0 <= i < s.len() && s[i] == 32 {
        skip_spaces(s, i + 1)
    } else {
        i
    }
}

/// the score of matching `p[j..]` against `s[i..]`, with `score` and the
/// current `run` of consecutive matches so far: spaces on both sides are
/// skipped; a matching char (ascii case ignored) earns ten per char of the
/// run before it, minus one when the case differs; a char of `s` that does
/// not match costs ten and ends the run. a pattern left over means no
/// match; otherwise every char of `s` left over costs one (the left-over
/// count taken as an i32, as the scoring casts it)
pub open spec fn fuzzy_spec(s: Seq<u8>, p: Seq<u8>, i: int, j: int, score: int, run: int) -> Option<int>
    decreases s.len() - i, p.len() - j,
{
    if !(0 <= i <= s.len() && 0 <= j <= p.len()) {
        None
    } else if i == s.len() || j == p.len() {
        if j < p.len() { None } else { Some(score - (#[verifier::truncate] ((s.len() - i) as i32)) as int) }
    } else {
        let i2 = skip_spaces(s, i);
        let j2 = skip_spaces(p, j);
        proof {
            lemma_skip_spaces(s, i);
            lemma_skip_spaces(p, j);
        }
        if i2 >= s.len() || j2 >= p.len() {
            if j2 < p.len() { None } else { Some(score - (#[verifier::truncate] ((s.len() - i2) as i32)) as int) }
        } else if ascii_lower(s[i2]) == ascii_lower(p[j2]) {
            fuzzy_spec(s, p, i2 + 1, j2 + 1, score + run * 10 - (if s[i2] != p[j2] { 1int } else { 0int }), run + 1)
        } else {
            fuzzy_spec(s, p, i2 + 1, j2, score - 10, 0)
        }
    }
}

pub open spec fn fits_i32(v: int) -> bool {
    i32::MIN <= v <= i32::MAX
}

/// every intermediate value of the computation fits the i32 it is kept in,
/// the left-over length taken as an i32 the way the scoring casts it
pub open spec fn fuzzy_fits(s: Seq<u8>, p: Seq<u8>, i: int, j: int, score: int, run: int) -> bool
    decreases s.len() - i, p.len() - j,
{
    if !(0 <= i <= s.len() && 0 <= j <= p.len()) {
        true
    } else if i == s.len() || j == p.len() {
        j < p.len() || fits_i32(score - (#[verifier::truncate] ((s.len() - i) as i32)) as int)
    } else {
        let i2 = skip_spaces(s, i);
        let j2 = skip_spaces(p, j);
        proof {
            lemma_skip_spaces(s, i);
            lemma_skip_spaces(p, j);
        }
        if i2 >= s.len() || j2 >= p.len() {
            j2 < p.len() || fits_i32(score - (#[verifier::truncate] ((s.len() - i2) as i32)) as int)
        } else if ascii_lower(s[i2]) == ascii_lower(p[j2]) {
            let step = run * 10 - (if s[i2] != p[j2] { 1int } else { 0int });
            &&& fits_i32(run * 10)
            &&& fits_i32(step)
            &&& fits_i32(score + step)
            &&& fits_i32(run + 1)
            &&& fuzzy_fits(s, p, i2 + 1, j2 + 1, score + step, run + 1)
        } else {
            &&& fits_i32(score - 10)
            &&& fuzzy_fits(s, p, i2 + 1, j2, score - 10, 0)
        }
    }
}

/// skipping spaces moves forward, stays in bounds and stops at a non-space
pub proof fn lemma_skip_spaces(s: Seq<u8>, i: int)
    requires
        0 <= i <= s.len(),
    ensures
        i <= skip_spaces(s, i) <= s.len(),
        skip_spaces(s, i) < s.len() ==> s[skip_spaces(s, i)] != 32,
    decreases s.len() - i,
{
    if i < s.len() && s[i] == 32 {
        lemma_skip_spaces(s, i + 1);
    }
}

/// the editor's fuzzy score: `None` when
/// the pattern's non-space chars do not all appear in `s` in order,
/// otherwise the score, higher for longer consecutive runs
pub fn fuzzy_match(s: &[u8], p: &[u8]) -> (res: Option<i32>)
    requires
        fuzzy_fits(s@, p@, 0, 0, 0, 0),
    ensures
        res == match fuzzy_spec(s@, p@, 0, 0, 0, 0) {
            Some(v) => Some(v as i32),
            None => None::<i32>,
        },
{
    let mut score: i32 = 0;
    let mut run: i32 = 0;
    let mut i: usize = 0;
    let mut j: usize = 0;
    while i < s.len() && j < p.len()
        invariant
            0 <= i <= s@.len(),
            0 <= j <= p@.len(),
            fuzzy_spec(s@, p@, 0, 0, 0, 0) == fuzzy_spec(s@, p@, i as int, j as int, score as int, run as int),
            fuzzy_fits(s@, p@, i as int, j as int, score as int, run as int),
        decreases s@.len() - i, p@.len() - j,
    {
        let ghost (i0, j0) = (i as int, j as int);
        proof {
            lemma_skip_spaces(s@, i0);
            lemma_skip_spaces(p@, j0);
        }
        while i < s.len() && s[i] == 32u8
            invariant
                i0 <= i <= s@.len(),
                skip_spaces(s@, i0) == skip_spaces(s@, i as int),
            decreases s@.len() - i,
        {
            i = i + 1;
        }
        while j < p.len() && p[j] == 32u8
            invariant
                j0 <= j <= p@.len(),
                skip_spaces(p@, j0) == skip_spaces(p@, j as int),
            decreases p@.len() - j,
        {
            j = j + 1;
        }
        if i < s.len() && j < p.len() {
            let sc = s[i];
            let pc = p[j];
            if eq_ignore_ascii_case(sc, pc) {
                let differs: i32 = if sc != pc { 1 } else { 0 };
                score = score + (run * 10 - differs);
                run = run + 1;
                j = j + 1;
            } else {
                score = score - 10;
                run = 0;
            }
            i = i + 1;
        }
    }
    if j < p.len() {
        return None;
    }
    Some(score - #[verifier::truncate] ((s.len() - i) as i32))
}

/// whether scoring `s` against `p` stays within the i32 it is kept in:
/// `fuzzy_fits`, decided at run time
pub fn fuzzy_match_fits(s: &[u8], p: &[u8]) -> (ok: bool)
    ensures
        ok == fuzzy_fits(s@, p@, 0, 0, 0, 0),
{
    let mut score: i64 = 0;
    let mut run: i64 = 0;
    let mut i: usize = 0;
    let mut j: usize = 0;
    while i < s.len() && j < p.len()
        invariant
            0 <= i <= s@.len(),
            0 <= j <= p@.len(),
            fits_i32(score as int),
            fits_i32(run as int),
            fuzzy_fits(s@, p@, 0, 0, 0, 0) == fuzzy_fits(s@, p@, i as int, j as int, score as int, run as int),
        decreases s@.len() - i, p@.len() - j,
    {
        let ghost (i0, j0) = (i as int, j as int);
        proof {
            lemma_skip_spaces(s@, i0);
            lemma_skip_spaces(p@, j0);
        }
        while i < s.len() && s[i] == 32u8
            invariant
                i0 <= i <= s@.len(),
                skip_spaces(s@, i0) == skip_spaces(s@, i as int),
            decreases s@.len() - i,
        {
            i = i + 1;
        }
        while j < p.len() && p[j] == 32u8
            invariant
                j0 <= j <= p@.len(),
                skip_spaces(p@, j0) == skip_spaces(p@, j as int),
            decreases p@.len() - j,
        {
            j = j + 1;
        }
        if i < s.len() && j < p.len() {
            let sc = s[i];
            let pc = p[j];
            if eq_ignore_ascii_case(sc, pc) {
                let differs: i64 = if sc != pc { 1 } else { 0 };
                let tens = run * 10;
                let step = tens - differs;
                let next = score + step;
                if tens < i32::MIN as i64 || tens > i32::MAX as i64 || step < i32::MIN as i64 || step
                    > i32::MAX as i64 || next < i32::MIN as i64 || next > i32::MAX as i64 || run + 1
                    > i32::MAX as i64 {
                    return false;
                }
                score = next;
                run = run + 1;
                j = j + 1;
            } else {
                if score - 10 < i32::MIN as i64 {
                    return false;
                }
                score = score - 10;
                run = 0;
            }
            i = i + 1;
        }
    }
    if j < p.len() {
        return true;
    }
    let rest: i64 = (#[verifier::truncate] ((s.len() - i) as i32)) as i64;
    i32::MIN as i64 <= score - rest && score - rest <= i32::MAX as i64
}

proof fn lemma_fits_when_short(s: Seq<u8>, p: Seq<u8>, i: int, j: int, score: int, run: int)
    requires
        s.len() <= 20000,
        p.len() <= 20000,
        0 <= i,
        0 <= j,
        0 <= run <= j,
        -(10 * i + j) <= score <= 5 * j * (j - 1),
    ensures
        fuzzy_fits(s, p, i, j, score, run),
    decreases s.len() - i, p.len() - j,
{
    if 0 <= i <= s.len() && 0 <= j <= p.len() {
        assert(5 * j * (j - 1) <= 1_999_900_000) by (nonlinear_arith)
            requires 0 <= j <= 20000;
        if !(i == s.len() || j == p.len()) {
            let i2 = skip_spaces(s, i);
            let j2 = skip_spaces(p, j);
            lemma_skip_spaces(s, i);
            lemma_skip_spaces(p, j);
            assert(5 * j * (j - 1) <= 5 * j2 * (j2 - 1)) by (nonlinear_arith)
                requires 0 <= j <= j2;
            assert(5 * j2 * (j2 - 1) <= 1_999_900_000) by (nonlinear_arith)
                requires 0 <= j2 <= 20000;
            if i2 >= s.len() || j2 >= p.len() {
            } else if ascii_lower(s[i2]) == ascii_lower(p[j2]) {
                assert(5 * (j2 + 1) * j2 == 5 * j2 * (j2 - 1) + 10 * j2) by (nonlinear_arith);
                let step = run * 10 - (if s[i2] != p[j2] { 1int } else { 0int });
                lemma_fits_when_short(s, p, i2 + 1, j2 + 1, score + step, run + 1);
            } else {
                lemma_fits_when_short(s, p, i2 + 1, j2, score - 10, 0);
            }
        }
    }
}

/// the score of strings up to twenty thousand bytes always fits an i32:
/// on any such input the scoring runs to its end
pub proof fn lemma_short_inputs_fit(s: Seq<u8>, p: Seq<u8>)
    requires
        s.len() <= 20000,
        p.len() <= 20000,
    ensures
        fuzzy_fits(s, p, 0, 0, 0, 0),
{
    lemma_fits_when_short(s, p, 0, 0, 0, 0);
}

/// the bytes of `p` from index `j` on, spaces left out
pub open spec fn pattern_chars(p: Seq<u8>, j: int) -> Seq<u8>
    decreases p.len() - j,
{
    if 0 <= j < p.len() {
        if p[j] == 32 {
            pattern_chars(p, j + 1)
        } else {
            seq![p[j]] + pattern_chars(p, j + 1)
        }
    } else {
        Seq::empty()
    }
}

/// `pos` picks, for each byte of `needle`, a position of `hay` at or after
/// `from` holding that byte (ascii case ignored), the positions rising
pub open spec fn picks_in_order(needle: Seq<u8>, hay: Seq<u8>, from: int, pos: Seq<int>) -> bool {
    &&& pos.len() == needle.len()
    &&& forall|k: int|
        0 <= k < pos.len() ==> from <= #[trigger] pos[k] < hay.len() && ascii_lower(hay[pos[k]])
            == ascii_lower(needle[k])
    &&& forall|k: int, l: int| 0 <= k < l < pos.len() ==> #[trigger] pos[k] < #[trigger] pos[l]
}

/// `needle` appears in `hay` from `from` on, in order, ascii case ignored
pub open spec fn appears_in_order(needle: Seq<u8>, hay: Seq<u8>, from: int) -> bool {
    exists|pos: Seq<int>| picks_in_order(needle, hay, from, pos)
}

proof fn lemma_skipped_spaces_hold_no_chars(p: Seq<u8>, j: int)
    requires
        0 <= j <= p.len(),
    ensures
        pattern_chars(p, j) == pattern_chars(p, skip_spaces(p, j)),
    decreases p.len() - j,
{
    if j < p.len() && p[j] == 32 {
        lemma_skipped_spaces_hold_no_chars(p, j + 1);
    }
}

proof fn lemma_match_picks(s: Seq<u8>, p: Seq<u8>, i: int, j: int, score: int, run: int) -> (pos: Seq<int>)
    requires
        0 <= i <= s.len(),
        0 <= j <= p.len(),
        fuzzy_spec(s, p, i, j, score, run) is Some,
    ensures
        picks_in_order(pattern_chars(p, j), s, i, pos),
    decreases s.len() - i, p.len() - j,
{
    if i == s.len() || j == p.len() {
        Seq::empty()
    } else {
        let i2 = skip_spaces(s, i);
        let j2 = skip_spaces(p, j);
        lemma_skip_spaces(s, i);
        lemma_skip_spaces(p, j);
        lemma_skipped_spaces_hold_no_chars(p, j);
        if i2 >= s.len() || j2 >= p.len() {
            Seq::empty()
        } else if ascii_lower(s[i2]) == ascii_lower(p[j2]) {
            let step = score + run * 10 - (if s[i2] != p[j2] { 1int } else { 0int });
            let rest = lemma_match_picks(s, p, i2 + 1, j2 + 1, step, run + 1);
            let pos = seq![i2] + rest;
            let needle = pattern_chars(p, j);
            assert(needle == seq![p[j2]] + pattern_chars(p, j2 + 1));
            assert forall|k: int| 0 <= k < pos.len() implies i <= #[trigger] pos[k] < s.len() && ascii_lower(
                s[pos[k]],
            ) == ascii_lower(needle[k]) by {
                if k > 0 {
                    assert(pos[k] == rest[k - 1]);
                    assert(needle[k] == pattern_chars(p, j2 + 1)[k - 1]);
                }
            }
            assert forall|k: int, l: int| 0 <= k < l < pos.len() implies #[trigger] pos[k] < #[trigger] pos[l] by {
                assert(pos[l] == rest[l - 1]);
                if k > 0 {
                    assert(pos[k] == rest[k - 1]);
                }
            }
            pos
        } else {
            lemma_match_picks(s, p, i2 + 1, j2, score - 10, 0)
        }
    }
}

/// a match means every non-space char of the pattern appears in the
/// string, in order, ascii case ignored
pub proof fn lemma_a_match_finds_the_pattern(s: Seq<u8>, p: Seq<u8>)
    requires
        fuzzy_spec(s, p, 0, 0, 0, 0) is Some,
    ensures
        appears_in_order(pattern_chars(p, 0), s, 0),
{
    let pos = lemma_match_picks(s, p, 0, 0, 0, 0);
    assert(picks_in_order(pattern_chars(p, 0), s, 0, pos));
}

/// `t` is `s` with one space put in at index `k`
pub open spec fn space_inserted(s: Seq<u8>, t: Seq<u8>, k: int) -> bool {
    &&& 0 <= k <= s.len()
    &&& t.len() == s.len() + 1
    &&& forall|m: int| 0 <= m < k ==> #[trigger] t[m] == s[m]
    &&& t[k] == 32
    &&& forall|m: int| k < m < t.len() ==> #[trigger] t[m] == s[m - 1]
}

proof fn lemma_skip_after_insert(s: Seq<u8>, t: Seq<u8>, k: int, i: int)
    requires
        space_inserted(s, t, k),
        k <= i <= s.len(),
    ensures
        skip_spaces(t, i + 1) == skip_spaces(s, i) + 1,
    decreases s.len() - i,
{
    if i < s.len() {
        assert(t[i + 1] == s[i]);
        if s[i] == 32 {
            lemma_skip_after_insert(s, t, k, i + 1);
        }
    }
}

proof fn lemma_skip_before_insert(s: Seq<u8>, t: Seq<u8>, k: int, i: int)
    requires
        space_inserted(s, t, k),
        k < s.len(),
        s[k] != 32,
        0 <= i <= k,
    ensures
        i <= skip_spaces(s, i) <= k,
        skip_spaces(s.take(k), i) == skip_spaces(s, i),
        skip_spaces(t, i) == (if skip_spaces(s, i) == k { k + 1 } else { skip_spaces(s, i) }),
    decreases k - i,
{
    if i == k {
        assert(t[k + 1] == s[k]);
        assert(skip_spaces(t, k + 1) == k + 1);
    } else {
        assert(t[i] == s[i]);
        assert(s.take(k)[i] == s[i]);
        if s[i] == 32 {
            lemma_skip_before_insert(s, t, k, i + 1);
        }
    }
}

proof fn lemma_fuzzy_after_insert(s: Seq<u8>, t: Seq<u8>, p: Seq<u8>, k: int, i: int, j: int, score: int, run: int)
    requires
        space_inserted(s, t, k),
        k <= i <= s.len(),
        0 <= j <= p.len(),
    ensures
        fuzzy_spec(t, p, i + 1, j, score, run) == fuzzy_spec(s, p, i, j, score, run),
    decreases s.len() - i, p.len() - j,
{
    if !(i == s.len() || j == p.len()) {
        lemma_skip_after_insert(s, t, k, i);
        lemma_skip_spaces(s, i);
        lemma_skip_spaces(p, j);
        let i2 = skip_spaces(s, i);
        let j2 = skip_spaces(p, j);
        if !(i2 >= s.len() || j2 >= p.len()) {
            assert(t[i2 + 1] == s[i2]);
            if ascii_lower(s[i2]) == ascii_lower(p[j2]) {
                let step = run * 10 - (if s[i2] != p[j2] { 1int } else { 0int });
                lemma_fuzzy_after_insert(s, t, p, k, i2 + 1, j2 + 1, score + step, run + 1);
            } else {
                lemma_fuzzy_after_insert(s, t, p, k, i2 + 1, j2, score - 10, 0);
            }
        }
    }
}

proof fn lemma_fuzzy_before_insert(s: Seq<u8>, t: Seq<u8>, p: Seq<u8>, k: int, i: int, j: int, score: int, run: int)
    requires
        space_inserted(s, t, k),
        k < s.len(),
        s[k] != 32,
        0 <= i <= k,
        0 <= j <= p.len(),
        fuzzy_spec(s.take(k), p, i, j, score, run) is None,
    ensures
        fuzzy_spec(t, p, i, j, score, run) == fuzzy_spec(s, p, i, j, score, run),
    decreases s.len() - i, p.len() - j,
{
    let head = s.take(k);
    lemma_skip_before_insert(s, t, k, i);
    lemma_skip_spaces(s, i);
    lemma_skip_spaces(p, j);
    let i2 = skip_spaces(s, i);
    let j2 = skip_spaces(p, j);
    if i2 == k {
        assert(t[k + 1] == s[k]);
        if j2 < p.len() {
            if ascii_lower(s[k]) == ascii_lower(p[j2]) {
                let step = run * 10 - (if s[k] != p[j2] { 1int } else { 0int });
                lemma_fuzzy_after_insert(s, t, p, k, k + 1, j2 + 1, score + step, run + 1);
            } else {
                lemma_fuzzy_after_insert(s, t, p, k, k + 1, j2, score - 10, 0);
            }
        }
    } else {
        assert(t[i2] == s[i2]);
        assert(head[i2] == s[i2]);
        if ascii_lower(s[i2]) == ascii_lower(p[j2]) {
            let step = run * 10 - (if s[i2] != p[j2] { 1int } else { 0int });
            lemma_fuzzy_before_insert(s, t, p, k, i2 + 1, j2 + 1, score + step, run + 1);
        } else {
            lemma_fuzzy_before_insert(s, t, p, k, i2 + 1, j2, score - 10, 0);
        }
    }
}

/// spaces in the string neither cost nor break a run: a space put into `s`
/// before a char that the scoring still reaches (the chars before it do not
/// use the whole pattern up) leaves the result as it was; so "foo bar" and
/// "foobar" score the same against "foobar"
pub proof fn lemma_spaces_do_not_break_a_run(s: Seq<u8>, p: Seq<u8>, k: int)
    requires
        0 <= k < s.len(),
        s[k] != 32,
        fuzzy_spec(s.take(k), p, 0, 0, 0, 0) is None,
    ensures
        fuzzy_spec(s.take(k) + seq![32u8] + s.skip(k), p, 0, 0, 0, 0) == fuzzy_spec(s, p, 0, 0, 0, 0),
{
    let t = s.take(k) + seq![32u8] + s.skip(k);
    assert forall|m: int| 0 <= m < k implies #[trigger] t[m] == s[m] by {}
    assert forall|m: int| k < m < t.len() implies #[trigger] t[m] == s[m - 1] by {}
    assert(space_inserted(s, t, k));
    lemma_fuzzy_before_insert(s, t, p, k, 0, 0, 0, 0);
}

/// an empty pattern always matches, scoring minus the length of the
/// string (for any string whose length an i32 holds)
pub proof fn lemma_empty_pattern_scores_minus_length(s: Seq<u8>)
    requires
        s.len() <= i32::MAX,
    ensures
        fuzzy_fits(s, Seq::<u8>::empty(), 0, 0, 0, 0),
        fuzzy_spec(s, Seq::<u8>::empty(), 0, 0, 0, 0) == Some(-(s.len() as int)),
{
    assert((#[verifier::truncate] (s.len() as i32)) as int == s.len() as int);
}

} // verus!
