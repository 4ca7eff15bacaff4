use vstd::prelude::*;

use crate::score::{COMP_LIMIT, SCALE};
use vstd::string::StrSliceExecFns;
use vstd::string::StringExecFns;

verus! {

/// Whether Unicode classes `c` as whitespace; what `char::is_whitespace`
/// returns.
pub uninterp spec fn is_ws_char(c: char) -> bool;

/// Whether Unicode classes `c` as alphanumeric; what `char::is_alphanumeric`
/// returns.
pub uninterp spec fn is_alnum_char(c: char) -> bool;

/// Relies on char::is_whitespace: the result depends on the character alone.
#[verifier::external_body]
pub(crate) fn char_is_ws(c: char) -> (r: bool)
    ensures
        r == is_ws_char(c),
{
    c.is_whitespace()
}

/// Relies on char::is_alphanumeric: the result depends on the character
/// alone.
#[verifier::external_body]
pub(crate) fn char_is_alnum(c: char) -> (r: bool)
    ensures
        r == is_alnum_char(c),
{
    c.is_alphanumeric()
}

/// What `str::to_lowercase` returns; it depends on the characters alone.
pub uninterp spec fn lower_of(s: Seq<char>) -> Seq<char>;

/// Relies on str::to_lowercase: the lowercased form depends on the
/// characters alone.
#[verifier::external_body]
pub(crate) fn lowercase_chars(s: &Vec<char>) -> (r: Vec<char>)
    ensures
        r@ == lower_of(s@),
{
    let t: String = s.iter().collect();
    t.to_lowercase().chars().collect()
}

/// Relies on String::from_iter (through collect): the string holds exactly
/// the given characters, in order.
#[verifier::external_body]
pub(crate) fn string_from_chars(v: &Vec<char>) -> (r: String)
    ensures
        r@ == v@,
{
    v.iter().collect()
}

/// A character survives filtering: alphanumeric, whitespace, or a literal
/// period.
pub open spec fn keep_char(c: char) -> bool {
    is_alnum_char(c) || is_ws_char(c) || c == '.'
}

/// The kept characters among the first `n`, in order.
pub open spec fn filter_prefix(s: Seq<char>, n: int) -> Seq<char>
    decreases n,
{
    if n <= 0 {
        Seq::empty()
    } else if keep_char(s[n - 1]) {
        filter_prefix(s, n - 1).push(s[n - 1])
    } else {
        filter_prefix(s, n - 1)
    }
}

/// Text filtering: drop every character that is neither alphanumeric, nor
/// whitespace, nor a period, preserving order and multiplicity of the rest.
pub open spec fn spec_filter(s: Seq<char>) -> Seq<char> {
    filter_prefix(s, s.len() as int)
}

/// Every character of a filtered text is one that filtering keeps.
pub proof fn lemma_filter_kept(s: Seq<char>, n: int)
    requires
        0 <= n <= s.len(),
    ensures
        forall|i: int|
            0 <= i < filter_prefix(s, n).len() ==> keep_char(#[trigger] filter_prefix(s, n)[i]),
    decreases n,
{
    if n > 0 {
        lemma_filter_kept(s, n - 1);
        let f1 = filter_prefix(s, n - 1);
        let f = filter_prefix(s, n);
        assert forall|i: int| 0 <= i < f.len() implies keep_char(#[trigger] f[i]) by {
            if keep_char(s[n - 1]) {
                if i < f1.len() {
                    assert(f[i] == f1[i]);
                } else {
                    assert(f[i] == s[n - 1]);
                }
            } else {
                assert(f[i] == f1[i]);
            }
        }
    }
}

/// Filtering text made only of kept characters changes nothing.
pub proof fn lemma_filter_identity(t: Seq<char>, n: int)
    requires
        0 <= n <= t.len(),
        forall|i: int| 0 <= i < t.len() ==> keep_char(#[trigger] t[i]),
    ensures
        filter_prefix(t, n) == t.take(n),
    decreases n,
{
    if n > 0 {
        lemma_filter_identity(t, n - 1);
        assert(t.take(n) =~= t.take(n - 1).push(t[n - 1]));
    } else {
        assert(t.take(0) =~= Seq::<char>::empty());
    }
}

/// Filtering is idempotent: filtering already-filtered text changes
/// nothing.
pub proof fn lemma_filter_idempotent(s: Seq<char>)
    ensures
        spec_filter(spec_filter(s)) == spec_filter(s),
{
    let f = spec_filter(s);
    lemma_filter_kept(s, s.len() as int);
    lemma_filter_identity(f, f.len() as int);
    assert(f.take(f.len() as int) =~= f);
}

/// Length of the leading run of non-whitespace characters.
pub open spec fn non_ws_prefix_len(t: Seq<char>) -> int
    decreases t.len(),
{
    if t.len() == 0 || is_ws_char(t[0]) {
        0
    } else {
        1 + non_ws_prefix_len(t.drop_first())
    }
}

/// The leading non-whitespace run covers between none and all of the text.
pub proof fn lemma_nwpl_bounds(t: Seq<char>)
    ensures
        0 <= non_ws_prefix_len(t) <= t.len(),
    decreases t.len(),
{
    if t.len() > 0 && !is_ws_char(t[0]) {
        lemma_nwpl_bounds(t.drop_first());
    }
}

/// The whitespace-separated tokens of `t`, in order, with no empty tokens.
pub open spec fn tokens_of(t: Seq<char>) -> Seq<Seq<char>>
    decreases t.len(),
    via tokens_of_dec
{
    if t.len() == 0 {
        Seq::empty()
    } else if is_ws_char(t[0]) {
        tokens_of(t.drop_first())
    } else {
        let k = non_ws_prefix_len(t);
        seq![t.take(k)] + tokens_of(t.skip(k))
    }
}

#[via_fn]
proof fn tokens_of_dec(t: Seq<char>) {
    if t.len() > 0 && !is_ws_char(t[0]) {
        lemma_nwpl_bounds(t.drop_first());
        assert(non_ws_prefix_len(t) == 1 + non_ws_prefix_len(t.drop_first()));
    }
}

/// A run of `n` non-whitespace characters ended by whitespace or the end of
/// the text is exactly the leading non-whitespace run.
pub proof fn lemma_nwpl_exact(t: Seq<char>, n: int)
    requires
        0 <= n <= t.len(),
        forall|m: int| 0 <= m < n ==> !is_ws_char(#[trigger] t[m]),
        n == t.len() || is_ws_char(t[n]),
    ensures
        non_ws_prefix_len(t) == n,
    decreases n,
{
    if n == 0 {
    } else {
        assert(!is_ws_char(t[0]));
        lemma_nwpl_exact(t.drop_first(), n - 1);
    }
}

/// Views of a list of character vectors.
pub open spec fn chars_models(v: Seq<Vec<char>>) -> Seq<Seq<char>> {
    Seq::new(v.len(), |i: int| v[i]@)
}

/// The characters of `s`, in order.
pub fn chars_of(s: &str) -> (r: Vec<char>)
    ensures
        r@ == s@,
{
    let n = s.unicode_len();
    let mut r: Vec<char> = Vec::new();
    let mut i: usize = 0;
    while i < n
        invariant
            n == s@.len(),
            0 <= i <= n,
            r@ == s@.take(i as int),
        decreases n - i,
    {
        let c = s.get_char(i);
        r.push(c);
        proof {
            assert(s@.take(i as int + 1) =~= s@.take(i as int).push(s@[i as int]));
        }
        i = i + 1;
    }
    proof {
        assert(s@.take(n as int) =~= s@);
    }
    r
}

/// A copy of a character vector.
pub fn clone_chars(v: &Vec<char>) -> (r: Vec<char>)
    ensures
        r@ == v@,
{
    let mut r: Vec<char> = Vec::new();
    let mut i: usize = 0;
    while i < v.len()
        invariant
            0 <= i <= v@.len(),
            r@ == v@.take(i as int),
        decreases v@.len() - i,
    {
        r.push(v[i]);
        proof {
            assert(v@.take(i as int + 1) =~= v@.take(i as int).push(v@[i as int]));
        }
        i = i + 1;
    }
    proof {
        assert(v@.take(v@.len() as int) =~= v@);
    }
    r
}

/// Keep only alphanumeric characters, whitespace, and periods.
pub fn filter_chars(s: &Vec<char>) -> (r: Vec<char>)
    ensures
        r@ == spec_filter(s@),
{
    let mut r: Vec<char> = Vec::new();
    let mut i: usize = 0;
    while i < s.len()
        invariant
            0 <= i <= s@.len(),
            r@ == filter_prefix(s@, i as int),
        decreases s@.len() - i,
    {
        let c = s[i];
        if char_is_alnum(c) || char_is_ws(c) || c == '.' {
            r.push(c);
        }
        i = i + 1;
    }
    r
}

/// Split on whitespace; no empty tokens are produced.
pub fn split_ws(s: &Vec<char>) -> (r: Vec<Vec<char>>)
    ensures
        chars_models(r@) == tokens_of(s@),
{
    let mut toks: Vec<Vec<char>> = Vec::new();
    let mut i: usize = 0;
    proof {
        assert(chars_models(toks@) =~= Seq::<Seq<char>>::empty());
        assert(s@.skip(0) =~= s@);
        assert(chars_models(toks@) + tokens_of(s@.skip(0)) =~= tokens_of(s@));
    }
    while i < s.len()
        invariant
            0 <= i <= s@.len(),
            tokens_of(s@) == chars_models(toks@) + tokens_of(s@.skip(i as int)),
        decreases s@.len() - i,
    {
        if char_is_ws(s[i]) {
            proof {
                assert(s@.skip(i as int).drop_first() =~= s@.skip(i as int + 1));
            }
            i = i + 1;
        } else {
            let ghost t = s@.skip(i as int);
            let mut j: usize = i;
            while j < s.len()
                invariant
                    0 <= i <= j <= s@.len(),
                    forall|m: int| i <= m < j ==> !is_ws_char(#[trigger] s@[m]),
                ensures
                    i <= j <= s@.len(),
                    forall|m: int| i <= m < j ==> !is_ws_char(#[trigger] s@[m]),
                    j == s@.len() || is_ws_char(s@[j as int]),
                decreases s@.len() - j,
            {
                if char_is_ws(s[j]) {
                    break ;
                }
                j = j + 1;
            }
            assert(j > i);
            let mut tok: Vec<char> = Vec::new();
            let mut m: usize = i;
            while m < j
                invariant
                    i <= m <= j <= s@.len(),
                    tok@ == s@.subrange(i as int, m as int),
                decreases j - m,
            {
                tok.push(s[m]);
                proof {
                    assert(s@.subrange(i as int, m as int + 1) =~= s@.subrange(
                        i as int,
                        m as int,
                    ).push(s@[m as int]));
                }
                m = m + 1;
            }
            proof {
                assert(forall|q: int| 0 <= q < j - i ==> t[q] == s@[i + q]);
                lemma_nwpl_exact(t, j - i);
                assert(t.take(j - i) =~= s@.subrange(i as int, j as int));
                assert(t.skip(j - i) =~= s@.skip(j as int));
                assert(tokens_of(t) == seq![tok@] + tokens_of(s@.skip(j as int)));
            }
            let ghost old_toks = toks@;
            toks.push(tok);
            proof {
                assert(chars_models(toks@) =~= chars_models(old_toks).push(
                    s@.subrange(i as int, j as int),
                ));
                assert(chars_models(toks@) + tokens_of(s@.skip(j as int)) =~= chars_models(
                    old_toks,
                ) + (seq![s@.subrange(i as int, j as int)] + tokens_of(s@.skip(j as int))));
            }
            i = j;
        }
    }
    proof {
        assert(s@.skip(i as int) =~= Seq::<char>::empty());
        assert(chars_models(toks@) + tokens_of(s@.skip(i as int)) =~= chars_models(toks@));
    }
    toks
}

/// Length of the leading run of characters before a newline.
pub open spec fn nl_prefix_len(t: Seq<char>) -> int
    decreases t.len(),
{
    if t.len() == 0 || t[0] == '\n' {
        0
    } else {
        1 + nl_prefix_len(t.drop_first())
    }
}

/// A line's text with one carriage return stripped from its end, as part of
/// a `\r\n` terminator.
pub open spec fn strip_cr(l: Seq<char>) -> Seq<char> {
    if l.len() > 0 && l[l.len() - 1] == '\r' {
        l.drop_last()
    } else {
        l
    }
}

/// The lines of `t`: split on `\n`, with `\r\n` treated as one terminator;
/// a trailing line without a terminator is kept as it stands.
pub open spec fn lines_of(t: Seq<char>) -> Seq<Seq<char>>
    decreases t.len(),
    via lines_of_dec
{
    if t.len() == 0 {
        Seq::empty()
    } else {
        let k = nl_prefix_len(t);
        if k == t.len() {
            seq![t]
        } else {
            seq![strip_cr(t.take(k))] + lines_of(t.skip(k + 1))
        }
    }
}

#[via_fn]
proof fn lines_of_dec(t: Seq<char>) {
    lemma_nl_bounds(t);
}

/// The leading line covers between none and all of the text.
pub proof fn lemma_nl_bounds(t: Seq<char>)
    ensures
        0 <= nl_prefix_len(t) <= t.len(),
    decreases t.len(),
{
    if t.len() > 0 && t[0] != '\n' {
        lemma_nl_bounds(t.drop_first());
    }
}

/// A run of `n` non-newline characters ended by a newline or the end of the
/// text is exactly the leading line.
pub proof fn lemma_nl_exact(t: Seq<char>, n: int)
    requires
        0 <= n <= t.len(),
        forall|m: int| 0 <= m < n ==> #[trigger] t[m] != '\n',
        n == t.len() || t[n] == '\n',
    ensures
        nl_prefix_len(t) == n,
    decreases n,
{
    if n == 0 {
    } else {
        assert(t[0] != '\n');
        lemma_nl_exact(t.drop_first(), n - 1);
    }
}

/// Split into lines as `lines_of` describes.
pub fn split_lines(s: &Vec<char>) -> (r: Vec<Vec<char>>)
    ensures
        chars_models(r@) == lines_of(s@),
{
    let mut lines: Vec<Vec<char>> = Vec::new();
    let mut i: usize = 0;
    proof {
        assert(chars_models(lines@) =~= Seq::<Seq<char>>::empty());
        assert(s@.skip(0) =~= s@);
        assert(chars_models(lines@) + lines_of(s@.skip(0)) =~= lines_of(s@));
    }
    while i < s.len()
        invariant
            0 <= i <= s@.len(),
            lines_of(s@) == chars_models(lines@) + lines_of(s@.skip(i as int)),
        decreases s@.len() - i,
    {
        let mut j: usize = i;
        while j < s.len()
            invariant
                0 <= i <= j <= s@.len(),
                forall|m: int| i <= m < j ==> #[trigger] s@[m] != '\n',
            ensures
                i <= j <= s@.len(),
                forall|m: int| i <= m < j ==> #[trigger] s@[m] != '\n',
                j == s@.len() || s@[j as int] == '\n',
            decreases s@.len() - j,
        {
            if s[j] == '\n' {
                break ;
            }
            j = j + 1;
        }
        let terminated = j < s.len();
        let end = if terminated && j > i && s[j - 1] == '\r' {
            j - 1
        } else {
            j
        };
        let mut line: Vec<char> = Vec::new();
        let mut m: usize = i;
        while m < end
            invariant
                i <= m <= end <= s@.len(),
                line@ == s@.subrange(i as int, m as int),
            decreases end - m,
        {
            line.push(s[m]);
            proof {
                assert(s@.subrange(i as int, m as int + 1) =~= s@.subrange(i as int, m as int).push(
                    s@[m as int],
                ));
            }
            m = m + 1;
        }
        let ghost t = s@.skip(i as int);
        proof {
            assert(forall|q: int| 0 <= q < t.len() ==> t[q] == s@[i + q]);
            lemma_nl_exact(t, j - i);
            if terminated {
                assert(t.take(j - i) =~= s@.subrange(i as int, j as int));
                assert(strip_cr(t.take(j - i)) =~= line@);
                assert(t.skip(j - i + 1) =~= s@.skip(j as int + 1));
                assert(lines_of(t) == seq![line@] + lines_of(s@.skip(j as int + 1)));
            } else {
                assert(t =~= s@.subrange(i as int, j as int));
                assert(lines_of(t) =~= seq![line@]);
            }
        }
        let ghost old_lines = lines@;
        lines.push(line);
        let next = if terminated {
            j + 1
        } else {
            j
        };
        proof {
            assert(chars_models(lines@) =~= chars_models(old_lines).push(line@));
            if terminated {
                assert(chars_models(lines@) + lines_of(s@.skip(next as int)) =~= chars_models(
                    old_lines,
                ) + (seq![line@] + lines_of(s@.skip(j as int + 1))));
            } else {
                assert(s@.skip(next as int) =~= Seq::<char>::empty());
                assert(chars_models(lines@) + lines_of(s@.skip(next as int)) =~= chars_models(
                    old_lines,
                ) + lines_of(t));
            }
        }
        i = next;
    }
    proof {
        assert(s@.skip(i as int) =~= Seq::<char>::empty());
        assert(chars_models(lines@) + lines_of(s@.skip(i as int)) =~= chars_models(lines@));
    }
    lines
}

/// Join with single spaces; empty input joins to the empty text.
pub open spec fn join_prefix(items: Seq<Seq<char>>, n: int) -> Seq<char>
    decreases n,
{
    if n <= 0 {
        Seq::empty()
    } else if n == 1 {
        items[0]
    } else {
        join_prefix(items, n - 1) + seq![' '] + items[n - 1]
    }
}

/// The space-joined form of `items`.
pub open spec fn spec_join(items: Seq<Seq<char>>) -> Seq<char> {
    join_prefix(items, items.len() as int)
}

/// Views of a list of strings.
pub open spec fn str_models(v: Seq<String>) -> Seq<Seq<char>> {
    Seq::new(v.len(), |i: int| v[i]@)
}

/// Join strings with single spaces.
pub fn join_spaces(items: &Vec<String>) -> (r: String)
    ensures
        r@ == spec_join(str_models(items@)),
{
    let ghost m = str_models(items@);
    let mut r = String::new();
    let mut i: usize = 0;
    while i < items.len()
        invariant
            m == str_models(items@),
            m.len() == items@.len(),
            0 <= i <= items@.len(),
            r@ == join_prefix(m, i as int),
        decreases items@.len() - i,
    {
        if i > 0 {
            r.append(" ");
            proof {
                reveal_strlit(" ");
                assert(" "@ =~= seq![' ']);
            }
        }
        r.append(items[i].as_str());
        i = i + 1;
    }
    r
}

/// A decimal digit.
pub open spec fn is_digit(c: char) -> bool {
    '0' as u32 <= c as u32 && c as u32 <= '9' as u32
}

/// The numeric value of a decimal digit.
pub open spec fn digit_val(c: char) -> int {
    c as u32 - '0' as u32
}

/// Every character is a decimal digit.
pub open spec fn all_digits(t: Seq<char>) -> bool {
    forall|i: int| 0 <= i < t.len() ==> is_digit(#[trigger] t[i])
}

/// The value of a digit string read in base ten.
pub open spec fn digits_val(t: Seq<char>) -> int
    decreases t.len(),
{
    if t.len() == 0 {
        0
    } else {
        digits_val(t.drop_last()) * 10 + digit_val(t[t.len() - 1])
    }
}

/// Index of the first period, or the length if there is none.
pub open spec fn dot_pos(t: Seq<char>) -> int
    decreases t.len(),
{
    if t.len() == 0 || t[0] == '.' {
        0
    } else {
        1 + dot_pos(t.drop_first())
    }
}

/// The `i`th fractional digit's value, or zero past the end.
pub open spec fn fdig(fp: Seq<char>, i: int) -> int {
    if 0 <= i < fp.len() {
        digit_val(fp[i])
    } else {
        0
    }
}

/// The first three fractional digits, scaled to thousandths; digits beyond
/// the third are truncated.
pub open spec fn frac3(fp: Seq<char>) -> int {
    100 * fdig(fp, 0) + 10 * fdig(fp, 1) + fdig(fp, 2)
}

/// Fixed-point reading of a decimal token, scaled by `SCALE`.  The accepted
/// forms are exactly: an optional `+` or `-` sign, then decimal digits with
/// at most one period and at least one digit in all; fractional digits
/// beyond the third are truncated.  Every other token — exponent notation,
/// infinity and not-a-number words among them — and any value over
/// `COMP_LIMIT` in scaled magnitude reads as nothing and is dropped by the
/// loader.
pub open spec fn parse_fixed(t: Seq<char>) -> Option<i64> {
    if t.len() == 0 {
        Option::None
    } else {
        let neg = t[0] == '-';
        let body = if t[0] == '-' || t[0] == '+' {
            t.drop_first()
        } else {
            t
        };
        parse_body(neg, body)
    }
}

/// Reading of the unsigned body of a decimal token.
pub open spec fn parse_body(neg: bool, body: Seq<char>) -> Option<i64> {
    let k = dot_pos(body);
    let ip = body.take(k);
    let fp = if k < body.len() {
        body.skip(k + 1)
    } else {
        Seq::empty()
    };
    if ip.len() + fp.len() == 0 || !all_digits(ip) || !all_digits(fp) {
        Option::None
    } else {
        let mag = digits_val(ip) * (SCALE as int) + frac3(fp);
        if mag > COMP_LIMIT as int {
            Option::None
        } else if neg {
            Option::Some((-mag) as i64)
        } else {
            Option::Some(mag as i64)
        }
    }
}

/// A digit string's value is non-negative.
pub proof fn lemma_digits_val_nonneg(t: Seq<char>)
    requires
        all_digits(t),
    ensures
        digits_val(t) >= 0,
    decreases t.len(),
{
    if t.len() > 0 {
        assert(all_digits(t.drop_last())) by {
            assert(forall|i: int| 0 <= i < t.len() - 1 ==> t.drop_last()[i] == t[i]);
        }
        lemma_digits_val_nonneg(t.drop_last());
    }
}

/// Reading one more digit multiplies by ten and adds it.
pub proof fn lemma_digits_val_step(t: Seq<char>, m: int)
    requires
        0 <= m < t.len(),
    ensures
        digits_val(t.take(m + 1)) == digits_val(t.take(m)) * 10 + digit_val(t[m]),
{
    assert(t.take(m + 1).drop_last() =~= t.take(m));
    assert(t.take(m + 1)[m] == t[m]);
}

/// A value that reads successfully lies within the component bound.
pub proof fn lemma_parse_fixed_bounds(t: Seq<char>)
    ensures
        parse_fixed(t) matches Option::Some(v) ==> -COMP_LIMIT <= v <= COMP_LIMIT,
{
    if t.len() > 0 {
        let neg = t[0] == '-';
        let body = if t[0] == '-' || t[0] == '+' {
            t.drop_first()
        } else {
            t
        };
        let k = dot_pos(body);
        let ip = body.take(k);
        let fp = if k < body.len() {
            body.skip(k + 1)
        } else {
            Seq::<char>::empty()
        };
        if ip.len() + fp.len() != 0 && all_digits(ip) && all_digits(fp) {
            lemma_digits_val_nonneg(ip);
            let mag = digits_val(ip) * (SCALE as int) + frac3(fp);
            assert(digits_val(ip) * (SCALE as int) >= 0) by (nonlinear_arith)
                requires
                    digits_val(ip) >= 0,
            ;
            assert(frac3(fp) >= 0);
        }
    }
}

/// A run of `n` non-period characters ended by a period or the end of the
/// text locates the first period.
pub proof fn lemma_dot_exact(t: Seq<char>, n: int)
    requires
        0 <= n <= t.len(),
        forall|m: int| 0 <= m < n ==> #[trigger] t[m] != '.',
        n == t.len() || t[n] == '.',
    ensures
        dot_pos(t) == n,
    decreases n,
{
    if n > 0 {
        assert(t[0] != '.');
        lemma_dot_exact(t.drop_first(), n - 1);
    }
}

/// Check that a range of characters is all decimal digits.
fn digits_check(t: &Vec<char>, from: usize, to: usize) -> (r: bool)
    requires
        from <= to <= t@.len(),
    ensures
        r == all_digits(t@.subrange(from as int, to as int)),
{
    let ghost seg = t@.subrange(from as int, to as int);
    let mut m: usize = from;
    while m < to
        invariant
            from <= m <= to <= t@.len(),
            seg == t@.subrange(from as int, to as int),
            forall|q: int| 0 <= q < m - from ==> is_digit(#[trigger] seg[q]),
        decreases to - m,
    {
        let c = t[m];
        let u = c as u32;
        if u < '0' as u32 || u > '9' as u32 {
            proof {
                assert(seg[m - from as int] == t@[m as int]);
                assert(!is_digit(seg[m - from as int]));
            }
            return false;
        }
        proof {
            assert(seg[m - from as int] == t@[m as int]);
        }
        m = m + 1;
    }
    true
}

/// Read a digit run in base ten, clamped above `COMP_LIMIT`: the result is
/// exact whenever the run's value is within the limit, and otherwise is
/// merely known to lie above it.
fn digits_value_clamped(t: &Vec<char>, from: usize, to: usize) -> (r: i64)
    requires
        from <= to <= t@.len(),
        all_digits(t@.subrange(from as int, to as int)),
    ensures
        0 <= r <= 655369,
        digits_val(t@.subrange(from as int, to as int)) <= COMP_LIMIT as int ==> r == digits_val(
            t@.subrange(from as int, to as int),
        ),
        digits_val(t@.subrange(from as int, to as int)) > COMP_LIMIT as int ==> r > COMP_LIMIT,
{
    let ghost seg = t@.subrange(from as int, to as int);
    let mut acc: i64 = 0;
    let mut m: usize = from;
    while m < to
        invariant
            from <= m <= to <= t@.len(),
            seg == t@.subrange(from as int, to as int),
            all_digits(seg),
            0 <= acc <= 655369,
            digits_val(seg.take(m - from)) <= COMP_LIMIT as int ==> acc == digits_val(
                seg.take(m - from),
            ),
            digits_val(seg.take(m - from)) > COMP_LIMIT as int ==> acc > COMP_LIMIT,
        decreases to - m,
    {
        let c = t[m];
        proof {
            assert(seg[m - from as int] == t@[m as int]);
        }
        let u = c as u32;
        let d: i64 = (u - '0' as u32) as i64;
        proof {
            let q = m - from as int;
            assert(forall|x: int| 0 <= x < q ==> seg.take(q)[x] == seg[x]);
            assert(all_digits(seg.take(q)));
            lemma_digits_val_nonneg(seg.take(q));
            lemma_digits_val_step(seg, q);
            assert(digit_val(seg[q]) == d);
        }
        if acc <= COMP_LIMIT {
            acc = acc * 10 + d;
        }
        proof {
            let q = m - from as int;
            let dv = digits_val(seg.take(q));
            let dv2 = digits_val(seg.take(q + 1));
            assert(dv2 == dv * 10 + d);
            if dv > COMP_LIMIT as int {
                assert(dv * 10 + d > COMP_LIMIT as int);
            }
        }
        m = m + 1;
    }
    proof {
        assert(seg.take(m - from as int) =~= seg);
    }
    acc
}

/// Read a token as a fixed-point decimal, exactly as `parse_fixed`
/// describes.
#[verifier::rlimit(50)]
pub fn parse_token(t: &Vec<char>) -> (r: Option<i64>)
    ensures
        r == parse_fixed(t@),
{
    if t.len() == 0 {
        return Option::None;
    }
    let c0 = t[0];
    let neg = c0 == '-';
    let start: usize = if c0 == '-' || c0 == '+' {
        1
    } else {
        0
    };
    let ghost body = if t@[0] == '-' || t@[0] == '+' {
        t@.drop_first()
    } else {
        t@
    };
    proof {
        assert(body =~= t@.skip(start as int));
        assert(forall|q: int| 0 <= q < body.len() ==> body[q] == t@[start + q]);
    }
    let mut dotj: usize = start;
    while dotj < t.len()
        invariant
            start <= dotj <= t@.len(),
            forall|m: int| start <= m < dotj ==> #[trigger] t@[m] != '.',
        ensures
            start <= dotj <= t@.len(),
            forall|m: int| start <= m < dotj ==> #[trigger] t@[m] != '.',
            dotj == t@.len() || t@[dotj as int] == '.',
        decreases t@.len() - dotj,
    {
        if t[dotj] == '.' {
            break ;
        }
        dotj = dotj + 1;
    }
    let ghost k = dotj - start;
    let ghost ip = body.take(k);
    let ghost fp = if k < body.len() {
        body.skip(k + 1)
    } else {
        Seq::<char>::empty()
    };
    proof {
        lemma_dot_exact(body, k);
        assert(ip =~= t@.subrange(start as int, dotj as int));
    }
    let fplen: usize = if dotj < t.len() {
        t.len() - dotj - 1
    } else {
        0
    };
    proof {
        if dotj < t.len() {
            assert(fp =~= t@.subrange(dotj as int + 1, t@.len() as int));
        }
        assert(fp.len() == fplen);
    }
    if dotj - start == 0 && fplen == 0 {
        return Option::None;
    }
    if !digits_check(t, start, dotj) {
        return Option::None;
    }
    let fstart: usize = if dotj < t.len() {
        dotj + 1
    } else {
        dotj
    };
    if fplen > 0 && !digits_check(t, fstart, t.len()) {
        return Option::None;
    }
    proof {
        if fplen == 0 {
            assert(all_digits(fp));
        }
    }
    let acc = digits_value_clamped(t, start, dotj);
    let f1: i64 = if fplen >= 1 {
        (t[dotj + 1] as u32 - '0' as u32) as i64
    } else {
        0
    };
    let f2: i64 = if fplen >= 2 {
        (t[dotj + 2] as u32 - '0' as u32) as i64
    } else {
        0
    };
    let f3: i64 = if fplen >= 3 {
        (t[dotj + 3] as u32 - '0' as u32) as i64
    } else {
        0
    };
    let fr: i64 = 100 * f1 + 10 * f2 + f3;
    proof {
        if fplen >= 1 {
            assert(fp[0] == t@[dotj as int + 1]);
        }
        if fplen >= 2 {
            assert(fp[1] == t@[dotj as int + 2]);
        }
        if fplen >= 3 {
            assert(fp[2] == t@[dotj as int + 3]);
        }
        assert(fr == frac3(fp));
        lemma_digits_val_nonneg(ip);
    }
    if acc > COMP_LIMIT {
        proof {
            let dv = digits_val(ip);
            assert(dv > COMP_LIMIT as int);
            assert(dv * (SCALE as int) + frac3(fp) > COMP_LIMIT as int);
        }
        return Option::None;
    }
    let mag: i64 = acc * SCALE + fr;
    if mag > COMP_LIMIT {
        return Option::None;
    }
    if neg {
        Option::Some(-mag)
    } else {
        Option::Some(mag)
    }
}

} // verus!
