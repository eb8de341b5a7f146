//! Character-level scanning over report text: whitespace classification,
//! whitespace tokenization, character search and removal, and line splitting.
//!
//! Every executable function here is specified against a small recursive
//! spec function over `Seq<char>`, so the parser's contracts can speak about
//! the report text as a mathematical sequence of characters.

use vstd::prelude::*;

verus! {

/// The characters carrying the Unicode `White_Space` property, the set that
/// `char::is_whitespace` recognizes; report rows are split at these.
pub open spec fn is_ws(c: char) -> bool {
    c as int == 0x20 || c as int == 0x09 || c as int == 0x0A || c as int == 0x0B || c as int
        == 0x0C || c as int == 0x0D || c as int == 0x85 || c as int == 0xA0 || c as int == 0x1680
        || (0x2000 <= c as int && c as int <= 0x200A) || c as int == 0x2028 || c as int == 0x2029
        || c as int == 0x202F || c as int == 0x205F || c as int == 0x3000
}

/// Decides `is_ws` on a concrete character.
pub fn is_ws_char(c: char) -> (r: bool)
    ensures
        r == is_ws(c),
{
    let u = c as u32;
    u == 0x20 || u == 0x09 || u == 0x0A || u == 0x0B || u == 0x0C || u == 0x0D || u == 0x85 || u
        == 0xA0 || u == 0x1680 || (0x2000 <= u && u <= 0x200A) || u == 0x2028 || u == 0x2029 || u
        == 0x202F || u == 0x205F || u == 0x3000
}

/// Length of the maximal whitespace-free run at the front of `s`.
pub open spec fn token_len(s: Seq<char>) -> nat
    decreases s.len(),
{
    if s.len() == 0 || is_ws(s[0]) {
        0
    } else {
        (1 + token_len(s.skip(1))) as nat
    }
}

/// The whitespace-separated tokens of `s`, in order, as `str::split_whitespace`
/// produces them: maximal whitespace-free runs, all non-empty.
pub open spec fn split_ws(s: Seq<char>) -> Seq<Seq<char>>
    decreases s.len(),
    via split_ws_dec
{
    if s.len() == 0 {
        Seq::empty()
    } else if is_ws(s[0]) {
        split_ws(s.skip(1))
    } else {
        seq![s.take(token_len(s) as int)] + split_ws(s.skip(token_len(s) as int))
    }
}

#[via_fn]
proof fn split_ws_dec(s: Seq<char>) {
    if s.len() > 0 && !is_ws(s[0]) {
        lemma_token_len_le(s);
        assert(token_len(s) == 1 + token_len(s.skip(1)));
    }
}

pub proof fn lemma_token_len_le(s: Seq<char>)
    ensures
        token_len(s) <= s.len(),
    decreases s.len(),
{
    if s.len() == 0 || is_ws(s[0]) {
    } else {
        lemma_token_len_le(s.skip(1));
    }
}

/// The leading token consists of non-whitespace characters and is ended by
/// the first whitespace character (if any).
pub proof fn lemma_token_len_chars(s: Seq<char>)
    ensures
        token_len(s) <= s.len(),
        forall|j: int| 0 <= j < token_len(s) ==> !is_ws(s[j]),
        token_len(s) < s.len() ==> is_ws(s[token_len(s) as int]),
    decreases s.len(),
{
    lemma_token_len_le(s);
    if s.len() == 0 || is_ws(s[0]) {
    } else {
        lemma_token_len_chars(s.skip(1));
        assert forall|j: int| 0 <= j < token_len(s) implies !is_ws(s[j]) by {
            if j > 0 {
                assert(s.skip(1)[j - 1] == s[j]);
            }
        }
        if token_len(s) < s.len() {
            assert(s.skip(1)[token_len(s) as int - 1] == s[token_len(s) as int]);
        }
    }
}

/// A scan that found `k` leading non-whitespace characters, stopped by the
/// end of `s` or by a whitespace character, found exactly the leading token.
pub proof fn lemma_token_len_exact(s: Seq<char>, k: int)
    requires
        0 <= k <= s.len(),
        forall|j: int| 0 <= j < k ==> !is_ws(s[j]),
        k < s.len() ==> is_ws(s[k]),
    ensures
        token_len(s) == k,
    decreases k,
{
    if k == 0 {
    } else {
        assert forall|j: int| 0 <= j < k - 1 implies !is_ws(s.skip(1)[j]) by {
            assert(s.skip(1)[j] == s[j + 1]);
        }
        if k - 1 < s.skip(1).len() {
            assert(s.skip(1)[k - 1] == s[k]);
        }
        lemma_token_len_exact(s.skip(1), k - 1);
    }
}

/// The views of a sequence of owned strings.
pub open spec fn strs_view(v: Seq<String>) -> Seq<Seq<char>> {
    v.map_values(|s: String| s@)
}

/// Relies on `String::push`: appends exactly the given character.
#[verifier::external_body]
pub(crate) fn push_char(s: &mut String, c: char)
    ensures
        final(s)@ == old(s)@.push(c),
{
    s.push(c);
}

/// Index of the first whitespace character of `s` at or after `from`, or the
/// length of `s` if there is none.
fn scan_token_end(s: &str, n: usize, from: usize) -> (j: usize)
    requires
        n == s@.len(),
        from <= n,
    ensures
        from <= j <= n,
        forall|t: int| from <= t < j ==> !is_ws(s@[t]),
        j < n ==> is_ws(s@[j as int]),
{
    let mut j: usize = from;
    while j < n
        invariant
            n == s@.len(),
            from <= j <= n,
            forall|t: int| from <= t < j ==> !is_ws(s@[t]),
        ensures
            from <= j <= n,
            forall|t: int| from <= t < j ==> !is_ws(s@[t]),
            j < n ==> is_ws(s@[j as int]),
        decreases n - j,
    {
        let c = s.get_char(j);
        if is_ws_char(c) {
            break ;
        }
        j += 1;
    }
    j
}

/// Splits `s` into its whitespace-separated tokens, in order.
pub fn tokenize_ws(s: &str) -> (toks: Vec<String>)
    ensures
        strs_view(toks@) == split_ws(s@),
{
    let n = s.unicode_len();
    let mut toks: Vec<String> = Vec::new();
    let mut i: usize = 0;
    proof {
        assert(s@.skip(0) =~= s@);
        assert(strs_view(toks@) =~= Seq::<Seq<char>>::empty());
        assert(strs_view(toks@) + split_ws(s@.skip(0)) =~= split_ws(s@));
    }
    while i < n
        invariant
            n == s@.len(),
            i <= n,
            split_ws(s@) == strs_view(toks@) + split_ws(s@.skip(i as int)),
        decreases n - i,
    {
        let ghost pre = strs_view(toks@);
        let ghost rem = s@.skip(i as int);
        let c = s.get_char(i);
        if is_ws_char(c) {
            proof {
                assert(rem[0] == s@[i as int]);
                assert(rem.skip(1) =~= s@.skip(i + 1));
                assert(split_ws(rem) == split_ws(rem.skip(1)));
            }
            i += 1;
        } else {
            let j = scan_token_end(s, n, i + 1);
            let tok = s.substring_char(i, j).to_owned();
            proof {
                assert(rem[0] == s@[i as int]);
                assert forall|t: int| 0 <= t < j - i implies !is_ws(rem[t]) by {
                    assert(rem[t] == s@[i + t]);
                }
                if j - i < rem.len() {
                    assert(rem[j - i] == s@[j as int]);
                }
                lemma_token_len_exact(rem, j - i);
                assert(rem.take(j - i) =~= s@.subrange(i as int, j as int));
                assert(rem.skip(j - i) =~= s@.skip(j as int));
                assert(split_ws(rem) == seq![s@.subrange(i as int, j as int)] + split_ws(
                    s@.skip(j as int),
                ));
            }
            toks.push(tok);
            proof {
                assert(strs_view(toks@) =~= pre.push(tok@));
                assert(pre.push(tok@) =~= pre + seq![s@.subrange(i as int, j as int)]);
                assert(strs_view(toks@) + split_ws(s@.skip(j as int)) =~= split_ws(s@));
            }
            i = j;
        }
    }
    proof {
        assert(s@.skip(n as int) =~= Seq::<char>::empty());
        assert(split_ws(s@.skip(n as int)) == Seq::<Seq<char>>::empty());
        assert(strs_view(toks@) + split_ws(s@.skip(n as int)) =~= strs_view(toks@));
    }
    toks
}

/// `s` with every `>` removed and everything else kept in order.
pub open spec fn remove_gt(s: Seq<char>) -> Seq<char>
    decreases s.len(),
{
    if s.len() == 0 {
        Seq::empty()
    } else if s.last() == '>' {
        remove_gt(s.drop_last())
    } else {
        remove_gt(s.drop_last()).push(s.last())
    }
}

/// `remove_gt` leaves no `>` and invents no characters.
pub proof fn lemma_remove_gt_chars(s: Seq<char>)
    ensures
        forall|j: int| 0 <= j < remove_gt(s).len() ==> remove_gt(s)[j] != '>',
        remove_gt(s).len() <= s.len(),
    decreases s.len(),
{
    if s.len() == 0 {
    } else {
        lemma_remove_gt_chars(s.drop_last());
    }
}

/// A sequence without `>` is unchanged by `remove_gt`.
pub proof fn lemma_remove_gt_id(s: Seq<char>)
    requires
        forall|j: int| 0 <= j < s.len() ==> s[j] != '>',
    ensures
        remove_gt(s) == s,
    decreases s.len(),
{
    if s.len() == 0 {
        assert(remove_gt(s) =~= s);
    } else {
        lemma_remove_gt_id(s.drop_last());
        assert(s.last() != '>');
        assert(remove_gt(s) =~= s.drop_last().push(s.last()));
        assert(s.drop_last().push(s.last()) =~= s);
    }
}

/// Copies `s`, dropping every `>` character.
pub fn strip_gt(s: &str) -> (r: String)
    ensures
        r@ == remove_gt(s@),
{
    let n = s.unicode_len();
    let mut r = String::new();
    let mut i: usize = 0;
    while i < n
        invariant
            n == s@.len(),
            i <= n,
            r@ == remove_gt(s@.take(i as int)),
        decreases n - i,
    {
        let c = s.get_char(i);
        proof {
            assert(s@.take(i + 1).drop_last() =~= s@.take(i as int));
            assert(s@.take(i + 1).last() == s@[i as int]);
        }
        if !(c == '>') {
            push_char(&mut r, c);
        }
        i += 1;
    }
    proof {
        assert(s@.take(n as int) =~= s@);
    }
    r
}

/// Every token of `split_ws` is non-empty and free of whitespace.
pub proof fn lemma_split_ws_tokens(s: Seq<char>)
    ensures
        forall|k: int| 0 <= k < split_ws(s).len() ==> split_ws(s)[k].len() > 0,
        forall|k: int, j: int|
            0 <= k < split_ws(s).len() && 0 <= j < split_ws(s)[k].len() ==> !is_ws(
                split_ws(s)[k][j],
            ),
    decreases s.len(),
{
    if s.len() == 0 {
        assert(split_ws(s) == Seq::<Seq<char>>::empty());
    } else if is_ws(s[0]) {
        lemma_split_ws_tokens(s.skip(1));
        assert(split_ws(s) == split_ws(s.skip(1)));
    } else {
        lemma_token_len_chars(s);
        let tl = token_len(s) as int;
        assert(token_len(s) == 1 + token_len(s.skip(1)));
        let t = s.take(tl);
        let rest = s.skip(tl);
        lemma_split_ws_tokens(rest);
        assert(split_ws(s) == seq![t] + split_ws(rest));
        assert(t.len() == tl);
        assert(tl >= 1);
        assert forall|k: int| 0 <= k < split_ws(s).len() implies split_ws(s)[k].len() > 0 by {
            if k > 0 {
                assert(split_ws(s)[k] == split_ws(rest)[k - 1]);
            }
        }
        assert forall|k: int, j: int|
            0 <= k < split_ws(s).len() && 0 <= j < split_ws(s)[k].len() implies !is_ws(
            split_ws(s)[k][j],
        ) by {
            if k == 0 {
                assert(split_ws(s)[0] == t);
                assert(t[j] == s[j]);
            } else {
                assert(split_ws(s)[k] == split_ws(rest)[k - 1]);
            }
        }
    }
}

/// A whitespace-free, non-empty run at the front is the first token.
pub proof fn lemma_split_ws_token_prefix(t: Seq<char>, rest: Seq<char>)
    requires
        t.len() > 0,
        forall|j: int| 0 <= j < t.len() ==> !is_ws(t[j]),
        rest.len() > 0 ==> is_ws(rest[0]),
    ensures
        split_ws(t + rest) == seq![t] + split_ws(rest),
{
    let s = t + rest;
    assert(s[0] == t[0]);
    assert forall|j: int| 0 <= j < t.len() implies !is_ws(s[j]) by {
        assert(s[j] == t[j]);
    }
    if t.len() < s.len() {
        assert(s[t.len() as int] == rest[0]);
    }
    lemma_token_len_exact(s, t.len() as int);
    assert(s.take(t.len() as int) =~= t);
    assert(s.skip(t.len() as int) =~= rest);
}

/// A leading space does not change the tokens.
pub proof fn lemma_split_ws_ws_head(rest: Seq<char>)
    ensures
        split_ws(seq![' '] + rest) == split_ws(rest),
{
    let s = seq![' '] + rest;
    assert(s[0] == ' ');
    assert(is_ws(' '));
    assert(s.skip(1) =~= rest);
}

/// Every character of every token is a character of `s` other than
/// whitespace; in particular a `>`-free `s` yields `>`-free tokens.
pub proof fn lemma_split_ws_no_gt(s: Seq<char>)
    requires
        forall|t: int| 0 <= t < s.len() ==> s[t] != '>',
    ensures
        forall|k: int, j: int|
            0 <= k < split_ws(s).len() && 0 <= j < split_ws(s)[k].len() ==> split_ws(s)[k][j]
                != '>',
    decreases s.len(),
{
    if s.len() == 0 {
    } else if is_ws(s[0]) {
        assert forall|t: int| 0 <= t < s.skip(1).len() implies s.skip(1)[t] != '>' by {
            assert(s.skip(1)[t] == s[t + 1]);
        }
        lemma_split_ws_no_gt(s.skip(1));
        assert(split_ws(s) == split_ws(s.skip(1)));
    } else {
        lemma_token_len_chars(s);
        let tl = token_len(s) as int;
        assert(token_len(s) == 1 + token_len(s.skip(1)));
        let t = s.take(tl);
        let rest = s.skip(tl);
        assert forall|u: int| 0 <= u < rest.len() implies rest[u] != '>' by {
            assert(rest[u] == s[tl + u]);
        }
        lemma_split_ws_no_gt(rest);
        assert(split_ws(s) == seq![t] + split_ws(rest));
        assert forall|k: int, j: int|
            0 <= k < split_ws(s).len() && 0 <= j < split_ws(s)[k].len() implies split_ws(s)[k][j]
            != '>' by {
            if k == 0 {
                assert(split_ws(s)[0] == t);
                assert(t[j] == s[j]);
            } else {
                assert(split_ws(s)[k] == split_ws(rest)[k - 1]);
            }
        }
    }
}

/// Concatenation preserves freedom from `>`.
pub proof fn lemma_no_gt_concat(a: Seq<char>, b: Seq<char>)
    requires
        forall|t: int| 0 <= t < a.len() ==> a[t] != '>',
        forall|t: int| 0 <= t < b.len() ==> b[t] != '>',
    ensures
        forall|t: int| 0 <= t < (a + b).len() ==> (a + b)[t] != '>',
{
    assert forall|t: int| 0 <= t < (a + b).len() implies (a + b)[t] != '>' by {
        if t < a.len() {
            assert((a + b)[t] == a[t]);
        } else {
            assert((a + b)[t] == b[t - a.len()]);
        }
    }
}

/// `s` without its leading whitespace.
pub open spec fn trim_start_ws(s: Seq<char>) -> Seq<char>
    decreases s.len(),
{
    if s.len() > 0 && is_ws(s[0]) {
        trim_start_ws(s.skip(1))
    } else {
        s
    }
}

/// `s` without its trailing whitespace.
pub open spec fn trim_end_ws(s: Seq<char>) -> Seq<char>
    decreases s.len(),
{
    if s.len() > 0 && is_ws(s.last()) {
        trim_end_ws(s.drop_last())
    } else {
        s
    }
}

/// `s` without surrounding whitespace, as `str::trim` yields it.
pub open spec fn trim_ws(s: Seq<char>) -> Seq<char> {
    trim_end_ws(trim_start_ws(s))
}

/// A scan that skipped `k` leading whitespace characters and stopped at the
/// end or at a non-whitespace character found the start of the trimmed text.
proof fn lemma_trim_start_exact(s: Seq<char>, k: int)
    requires
        0 <= k <= s.len(),
        forall|t: int| 0 <= t < k ==> is_ws(s[t]),
        k < s.len() ==> !is_ws(s[k]),
    ensures
        trim_start_ws(s) == s.skip(k),
    decreases k,
{
    if k == 0 {
        assert(s.skip(0) =~= s);
    } else {
        assert forall|t: int| 0 <= t < k - 1 implies is_ws(s.skip(1)[t]) by {
            assert(s.skip(1)[t] == s[t + 1]);
        }
        if k - 1 < s.skip(1).len() {
            assert(s.skip(1)[k - 1] == s[k]);
        }
        lemma_trim_start_exact(s.skip(1), k - 1);
        assert(s.skip(1).skip(k - 1) =~= s.skip(k));
    }
}

/// A scan that dropped the trailing whitespace down to position `k` found
/// the end of the trimmed text.
proof fn lemma_trim_end_exact(s: Seq<char>, k: int)
    requires
        0 <= k <= s.len(),
        forall|t: int| k <= t < s.len() ==> is_ws(s[t]),
        k > 0 ==> !is_ws(s[k - 1]),
    ensures
        trim_end_ws(s) == s.take(k),
    decreases s.len(),
{
    if k == s.len() {
        if s.len() > 0 {
            assert(!is_ws(s.last()));
        }
        assert(s.take(k) =~= s);
    } else {
        assert(is_ws(s.last()));
        assert forall|t: int| k <= t < s.drop_last().len() implies is_ws(s.drop_last()[t]) by {
            assert(s.drop_last()[t] == s[t]);
        }
        if k > 0 {
            assert(s.drop_last()[k - 1] == s[k - 1]);
        }
        lemma_trim_end_exact(s.drop_last(), k);
        assert(s.drop_last().take(k) =~= s.take(k));
    }
}

/// The bounds of `s` without surrounding whitespace: the trimmed text is
/// exactly `s[i..j]`.
pub fn trim_bounds(s: &str) -> (r: (usize, usize))
    ensures
        r.0 <= r.1 <= s@.len(),
        s@.subrange(r.0 as int, r.1 as int) == trim_ws(s@),
{
    let n = s.unicode_len();
    let mut i: usize = 0;
    while i < n
        invariant
            n == s@.len(),
            i <= n,
            forall|t: int| 0 <= t < i ==> is_ws(s@[t]),
        ensures
            i <= n,
            forall|t: int| 0 <= t < i ==> is_ws(s@[t]),
            i < n ==> !is_ws(s@[i as int]),
        decreases n - i,
    {
        if !is_ws_char(s.get_char(i)) {
            break ;
        }
        i += 1;
    }
    proof {
        lemma_trim_start_exact(s@, i as int);
    }
    if i == n {
        proof {
            assert(s@.skip(n as int) =~= Seq::<char>::empty());
            assert(trim_end_ws(s@.skip(n as int)) == Seq::<char>::empty());
            assert(s@.subrange(n as int, n as int) =~= Seq::<char>::empty());
        }
        return (n, n);
    }
    let mut j: usize = n;
    while j > i
        invariant
            n == s@.len(),
            i <= j <= n,
            i < n,
            !is_ws(s@[i as int]),
            forall|t: int| j <= t < n ==> is_ws(s@[t]),
        ensures
            i <= j <= n,
            forall|t: int| j <= t < n ==> is_ws(s@[t]),
            j > i ==> !is_ws(s@[j - 1]),
        decreases j,
    {
        if !is_ws_char(s.get_char(j - 1)) {
            break ;
        }
        j -= 1;
    }
    proof {
        // the loop cannot stop at j == i, whose character is not whitespace
        if j == i {
            assert(!is_ws(s@[i as int]));
        }
        let tail = s@.skip(i as int);
        assert forall|t: int| j - i <= t < tail.len() implies is_ws(tail[t]) by {
            assert(tail[t] == s@[i + t]);
        }
        if j > i {
            assert(tail[j - i - 1] == s@[j - 1]);
        }
        lemma_trim_end_exact(tail, j - i);
        assert(tail.take(j - i) =~= s@.subrange(i as int, j as int));
    }
    (i, j)
}

/// Index of the first occurrence of `c` in `s`, or `-1` if there is none.
pub open spec fn idx_of(s: Seq<char>, c: char) -> int
    decreases s.len(),
{
    if s.len() == 0 {
        -1
    } else if s[0] == c {
        0
    } else if idx_of(s.skip(1), c) < 0 {
        -1
    } else {
        idx_of(s.skip(1), c) + 1
    }
}

/// A scan that saw `k` characters other than `c`, stopped by the end of `s`
/// or by an occurrence of `c`, found the first occurrence (or none).
pub proof fn lemma_idx_of_exact(s: Seq<char>, c: char, k: int)
    requires
        0 <= k <= s.len(),
        forall|t: int| 0 <= t < k ==> s[t] != c,
        k < s.len() ==> s[k] == c,
    ensures
        k == s.len() ==> idx_of(s, c) == -1,
        k < s.len() ==> idx_of(s, c) == k,
    decreases k,
{
    if k == 0 {
        if s.len() > 0 && s[0] != c {
            lemma_idx_of_bounds(s.skip(1), c);
        }
    } else {
        assert forall|t: int| 0 <= t < k - 1 implies s.skip(1)[t] != c by {
            assert(s.skip(1)[t] == s[t + 1]);
        }
        if k - 1 < s.skip(1).len() {
            assert(s.skip(1)[k - 1] == s[k]);
        }
        lemma_idx_of_exact(s.skip(1), c, k - 1);
    }
}

/// `idx_of` is `-1` or a position of `c` preceded by no other occurrence.
pub proof fn lemma_idx_of_bounds(s: Seq<char>, c: char)
    ensures
        idx_of(s, c) >= 0 ==> 0 <= idx_of(s, c) < s.len() && s[idx_of(s, c)] == c,
        idx_of(s, c) >= 0 ==> forall|t: int| 0 <= t < idx_of(s, c) ==> s[t] != c,
        idx_of(s, c) < 0 ==> idx_of(s, c) == -1 && forall|t: int| 0 <= t < s.len() ==> s[t] != c,
    decreases s.len(),
{
    if s.len() == 0 {
    } else if s[0] == c {
    } else {
        lemma_idx_of_bounds(s.skip(1), c);
        if idx_of(s, c) >= 0 {
            assert(s[idx_of(s, c)] == s.skip(1)[idx_of(s.skip(1), c)]);
            assert forall|t: int| 0 <= t < idx_of(s, c) implies s[t] != c by {
                if t > 0 {
                    assert(s[t] == s.skip(1)[t - 1]);
                }
            }
        } else {
            assert forall|t: int| 0 <= t < s.len() implies s[t] != c by {
                if t > 0 {
                    assert(s[t] == s.skip(1)[t - 1]);
                }
            }
        }
    }
}

/// Position of the first occurrence of `c` in `s` at or after `from`.
pub fn find_char_from(s: &str, n: usize, c: char, from: usize) -> (r: Option<usize>)
    requires
        n == s@.len(),
        from <= n,
    ensures
        match r {
            Some(j) => from <= j < n && s@[j as int] == c && forall|t: int|
                from <= t < j ==> s@[t] != c,
            None => forall|t: int| from <= t < n ==> s@[t] != c,
        },
{
    let mut j: usize = from;
    while j < n
        invariant
            n == s@.len(),
            from <= j <= n,
            forall|t: int| from <= t < j ==> s@[t] != c,
        ensures
            from <= j <= n,
            forall|t: int| from <= t < j ==> s@[t] != c,
            j < n ==> s@[j as int] == c,
        decreases n - j,
    {
        if s.get_char(j) == c {
            break ;
        }
        j += 1;
    }
    if j < n {
        Some(j)
    } else {
        None
    }
}

/// Whether `c` occurs anywhere in `s`.
pub fn contains_char(s: &str, c: char) -> (r: bool)
    ensures
        r == s@.contains(c),
{
    let n = s.unicode_len();
    match find_char_from(s, n, c, 0) {
        Some(j) => {
            proof {
                assert(s@[j as int] == c);
            }
            true
        },
        None => {
            proof {
                assert forall|t: int| 0 <= t < s@.len() implies s@[t] != c by {}
            }
            false
        },
    }
}

/// Whether `p` is a prefix of `s`, character for character.
pub fn starts_with_lit(s: &str, p: &str) -> (r: bool)
    ensures
        r == p@.is_prefix_of(s@),
{
    let sn = s.unicode_len();
    let pn = p.unicode_len();
    if pn > sn {
        return false;
    }
    let mut i: usize = 0;
    while i < pn
        invariant
            sn == s@.len(),
            pn == p@.len(),
            pn <= sn,
            i <= pn,
            forall|t: int| 0 <= t < i ==> s@[t] == p@[t],
        decreases pn - i,
    {
        if !(s.get_char(i) == p.get_char(i)) {
            proof {
                assert(s@.subrange(0, pn as int)[i as int] == s@[i as int]);
            }
            return false;
        }
        i += 1;
    }
    proof {
        assert(p@ =~= s@.subrange(0, pn as int));
    }
    true
}

/// Drops a single trailing carriage return, as `str::lines` does.
pub open spec fn strip_cr(s: Seq<char>) -> Seq<char> {
    if s.len() > 0 && s.last() == '\r' {
        s.drop_last()
    } else {
        s
    }
}

/// The lines of `s`, split at `'\n'` with a preceding `'\r'` dropped and a
/// final line ending optional, as `str::lines` yields them.
pub open spec fn lines_of(s: Seq<char>) -> Seq<Seq<char>>
    decreases s.len(),
{
    if s.len() == 0 {
        Seq::empty()
    } else {
        let i = idx_of(s, '\n');
        if 0 <= i < s.len() {
            seq![strip_cr(s.take(i))] + lines_of(s.skip(i + 1))
        } else {
            seq![strip_cr(s)]
        }
    }
}

/// Splits `s` into its lines.
pub fn split_lines(s: &str) -> (r: Vec<String>)
    ensures
        strs_view(r@) == lines_of(s@),
{
    let n = s.unicode_len();
    let mut out: Vec<String> = Vec::new();
    let mut i: usize = 0;
    proof {
        assert(s@.skip(0) =~= s@);
        assert(strs_view(out@) =~= Seq::<Seq<char>>::empty());
        assert(strs_view(out@) + lines_of(s@.skip(0)) =~= lines_of(s@));
    }
    while i < n
        invariant
            n == s@.len(),
            i <= n,
            lines_of(s@) == strs_view(out@) + lines_of(s@.skip(i as int)),
        decreases n - i,
    {
        let ghost pre = strs_view(out@);
        let ghost rem = s@.skip(i as int);
        match find_char_from(s, n, '\n', i) {
            Some(j) => {
                let end = if j > i && s.get_char(j - 1) == '\r' {
                    j - 1
                } else {
                    j
                };
                let ln = s.substring_char(i, end).to_owned();
                proof {
                    assert forall|t: int| 0 <= t < j - i implies rem[t] != '\n' by {
                        assert(rem[t] == s@[i + t]);
                    }
                    assert(rem[j - i] == s@[j as int]);
                    lemma_idx_of_exact(rem, '\n', j - i);
                    assert(rem.take(j - i) =~= s@.subrange(i as int, j as int));
                    if j > i && s@[j - 1] == '\r' {
                        assert(rem.take(j - i).last() == s@[j - 1]);
                        assert(strip_cr(rem.take(j - i)) =~= s@.subrange(i as int, end as int));
                    } else {
                        assert(strip_cr(rem.take(j - i)) =~= s@.subrange(i as int, end as int));
                    }
                    assert(rem.skip(j - i + 1) =~= s@.skip(j + 1));
                    assert(lines_of(rem) == seq![strip_cr(rem.take(j - i))] + lines_of(
                        s@.skip(j + 1),
                    ));
                }
                out.push(ln);
                proof {
                    assert(strs_view(out@) =~= pre.push(ln@));
                    assert(strs_view(out@) + lines_of(s@.skip(j + 1)) =~= lines_of(s@));
                }
                i = j + 1;
            },
            None => {
                let end = if n > i && s.get_char(n - 1) == '\r' {
                    n - 1
                } else {
                    n
                };
                let ln = s.substring_char(i, end).to_owned();
                proof {
                    assert forall|t: int| 0 <= t < rem.len() implies rem[t] != '\n' by {
                        assert(rem[t] == s@[i + t]);
                    }
                    lemma_idx_of_exact(rem, '\n', n - i);
                    assert(rem.len() > 0);
                    if n > i && s@[n - 1] == '\r' {
                        assert(rem.last() == s@[n - 1]);
                        assert(strip_cr(rem) =~= s@.subrange(i as int, end as int));
                    } else {
                        assert(strip_cr(rem) =~= s@.subrange(i as int, end as int));
                    }
                    assert(lines_of(rem) == seq![strip_cr(rem)]);
                }
                out.push(ln);
                proof {
                    assert(strs_view(out@) =~= pre.push(ln@));
                    assert(s@.skip(n as int) =~= Seq::<char>::empty());
                    assert(lines_of(s@.skip(n as int)) == Seq::<Seq<char>>::empty());
                    assert(strs_view(out@) + lines_of(s@.skip(n as int)) =~= lines_of(s@));
                }
                i = n;
            },
        }
    }
    proof {
        assert(s@.skip(n as int) =~= Seq::<char>::empty());
        assert(lines_of(s@.skip(n as int)) == Seq::<Seq<char>>::empty());
        assert(strs_view(out@) + lines_of(s@.skip(n as int)) =~= strs_view(out@));
    }
    out
}

} // verus!
