use vstd::prelude::*;

use crate::score::{spec_score, ScoreVal};
use crate::table::{spec_lookup, EmbModel, KwModel};
use crate::text::{lower_of, spec_filter, spec_join, tokens_of};

verus! {

/// One step of the best-match scan: a keyword with an embedding becomes the
/// new best exactly when its similarity to the word strictly exceeds 1/2
/// and strictly exceeds the best so far; a keyword without an embedding is
/// skipped.
pub open spec fn consider(
    emb: EmbModel,
    wv: Seq<i64>,
    emoji: Seq<char>,
    kw: Seq<char>,
    best: Option<(Seq<char>, ScoreVal)>,
) -> Option<(Seq<char>, ScoreVal)> {
    match spec_lookup(emb, kw) {
        Option::None => best,
        Option::Some(kv) => {
            let s = spec_score(wv, kv);
            match best {
                Option::None => if s.exceeds_half() {
                    Option::Some((emoji, s))
                } else {
                    Option::None
                },
                Option::Some((be, bs)) => if s.exceeds_half() && s.gt(bs) {
                    Option::Some((emoji, s))
                } else {
                    best
                },
            }
        },
    }
}

/// Scan the first `n` keywords of one emoji entry.
pub open spec fn scan_kws(
    emb: EmbModel,
    wv: Seq<i64>,
    emoji: Seq<char>,
    kws: Seq<Seq<char>>,
    n: int,
    best: Option<(Seq<char>, ScoreVal)>,
) -> Option<(Seq<char>, ScoreVal)>
    decreases n,
{
    if n <= 0 {
        best
    } else {
        consider(emb, wv, emoji, kws[n - 1], scan_kws(emb, wv, emoji, kws, n - 1, best))
    }
}

/// Scan the first `n` entries of the keyword table.
pub open spec fn scan_table(
    emb: EmbModel,
    wv: Seq<i64>,
    kw: KwModel,
    n: int,
    best: Option<(Seq<char>, ScoreVal)>,
) -> Option<(Seq<char>, ScoreVal)>
    decreases n,
{
    if n <= 0 {
        best
    } else {
        scan_kws(
            emb,
            wv,
            kw[n - 1].0,
            kw[n - 1].1,
            kw[n - 1].1.len() as int,
            scan_table(emb, wv, kw, n - 1, best),
        )
    }
}

/// The best-scoring emoji for a word's vector, if any keyword's similarity
/// strictly exceeds 1/2; ties go to the entry met first in table order.
pub open spec fn best_match(emb: EmbModel, kw: KwModel, wv: Seq<i64>) -> Option<
    (Seq<char>, ScoreVal),
> {
    scan_table(emb, wv, kw, kw.len() as int, Option::None)
}

/// What one token contributes: nothing when its lowercased form has no
/// embedding, and nothing when no emoji qualifies; otherwise the winning
/// emoji.
pub open spec fn token_emoji(emb: EmbModel, kw: KwModel, token: Seq<char>) -> Option<Seq<char>> {
    match spec_lookup(emb, lower_of(token)) {
        Option::None => Option::None,
        Option::Some(wv) => match best_match(emb, kw, wv) {
            Option::None => Option::None,
            Option::Some((e, s)) => Option::Some(e),
        },
    }
}

/// The emoji contributed by the first `n` tokens, in token order.
pub open spec fn outputs_prefix(emb: EmbModel, kw: KwModel, tokens: Seq<Seq<char>>, n: int) -> Seq<
    Seq<char>,
>
    decreases n,
{
    if n <= 0 {
        Seq::empty()
    } else {
        let rest = outputs_prefix(emb, kw, tokens, n - 1);
        match token_emoji(emb, kw, tokens[n - 1]) {
            Option::None => rest,
            Option::Some(e) => rest.push(e),
        }
    }
}

/// The emoji contributed by all tokens.
pub open spec fn spec_outputs(emb: EmbModel, kw: KwModel, tokens: Seq<Seq<char>>) -> Seq<
    Seq<char>,
> {
    outputs_prefix(emb, kw, tokens, tokens.len() as int)
}

/// The whole translation: filter the text, split it into tokens, map each
/// token to at most one emoji, and join the emoji with single spaces.
pub open spec fn spec_translate(emb: EmbModel, kw: KwModel, text: Seq<char>) -> Seq<char> {
    spec_join(spec_outputs(emb, kw, tokens_of(spec_filter(text))))
}

/// The keyword scan only ever reports the entry it was given or keeps the
/// best it started from.
proof fn lemma_scan_kws_source(
    emb: EmbModel,
    wv: Seq<i64>,
    emoji: Seq<char>,
    kws: Seq<Seq<char>>,
    n: int,
    best: Option<(Seq<char>, ScoreVal)>,
)
    ensures
        scan_kws(emb, wv, emoji, kws, n, best) matches Option::Some((e, s)) ==> (best
            == Option::Some((e, s)) || e == emoji),
    decreases n,
{
    if n > 0 {
        lemma_scan_kws_source(emb, wv, emoji, kws, n - 1, best);
    }
}

/// The table scan only ever reports an emoji that stands in the table, or
/// keeps the best it started from.
proof fn lemma_scan_table_source(
    emb: EmbModel,
    wv: Seq<i64>,
    kw: KwModel,
    n: int,
    best: Option<(Seq<char>, ScoreVal)>,
)
    requires
        0 <= n <= kw.len(),
    ensures
        scan_table(emb, wv, kw, n, best) matches Option::Some((e, s)) ==> (best == Option::Some(
            (e, s),
        ) || exists|i: int| 0 <= i < n && (#[trigger] kw[i]).0 == e),
    decreases n,
{
    if n > 0 {
        lemma_scan_table_source(emb, wv, kw, n - 1, best);
        let prev = scan_table(emb, wv, kw, n - 1, best);
        lemma_scan_kws_source(emb, wv, kw[n - 1].0, kw[n - 1].1, kw[n - 1].1.len() as int, prev);
        match scan_table(emb, wv, kw, n, best) {
            Option::Some((e, s)) => {
                if prev == Option::Some((e, s)) {
                } else {
                    assert(kw[n - 1].0 == e);
                }
            },
            Option::None => {},
        }
    }
}

/// The symbol `e` is one of the keyword table's emoji.
pub open spec fn from_table(kw: KwModel, e: Seq<char>) -> bool {
    exists|i: int| 0 <= i < kw.len() && (#[trigger] kw[i]).0 == e
}

/// Unknown words never appear in the output: every symbol of the output is
/// an emoji of the keyword table, so a token contributes either one of the
/// table's emoji or nothing at all.
pub proof fn lemma_outputs_from_table(emb: EmbModel, kw: KwModel, tokens: Seq<Seq<char>>, n: int)
    requires
        0 <= n <= tokens.len(),
    ensures
        forall|j: int|
            0 <= j < outputs_prefix(emb, kw, tokens, n).len() ==> from_table(
                kw,
                #[trigger] outputs_prefix(emb, kw, tokens, n)[j],
            ),
    decreases n,
{
    if n > 0 {
        lemma_outputs_from_table(emb, kw, tokens, n - 1);
        let rest = outputs_prefix(emb, kw, tokens, n - 1);
        let out = outputs_prefix(emb, kw, tokens, n);
        match token_emoji(emb, kw, tokens[n - 1]) {
            Option::None => {
                assert forall|j: int| 0 <= j < out.len() implies from_table(
                    kw,
                    #[trigger] out[j],
                ) by {
                    assert(out[j] == rest[j]);
                }
            },
            Option::Some(e) => {
                let lc = lower_of(tokens[n - 1]);
                assert(spec_lookup(emb, lc) is Some);
                let wv = spec_lookup(emb, lc).unwrap();
                lemma_scan_table_source(emb, wv, kw, kw.len() as int, Option::None);
                assert(best_match(emb, kw, wv) is Some);
                let pr = best_match(emb, kw, wv).unwrap();
                assert(pr.0 == e);
                assert(from_table(kw, e));
                assert forall|j: int| 0 <= j < out.len() implies from_table(
                    kw,
                    #[trigger] out[j],
                ) by {
                    if j < rest.len() {
                        assert(out[j] == rest[j]);
                    } else {
                        assert(out[j] == e);
                    }
                }
            },
        }
    }
}

/// Empty input text yields empty output.
pub proof fn lemma_translate_empty(emb: EmbModel, kw: KwModel, text: Seq<char>)
    requires
        text.len() == 0,
    ensures
        spec_translate(emb, kw, text).len() == 0,
{
    assert(spec_filter(text).len() == 0);
    assert(tokens_of(spec_filter(text)) =~= Seq::<Seq<char>>::empty());
}

} // verus!
