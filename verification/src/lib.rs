use vstd::prelude::*;

pub mod json;
pub mod policy;
pub mod score;
pub mod table;
pub mod text;

use crate::policy::{
    best_match, lemma_translate_empty, outputs_prefix, scan_kws, scan_table, spec_outputs,
    spec_translate, token_emoji,
};
use crate::score::{
    bounded_vec, dot_i128, lemma_dot_prefix_sym, lemma_dot_prefix_zero_left, lemma_mul_bounds_sq,
    lemma_norm2_prefix, spec_norm2, spec_score, Score, ScoreVal, COMP_LIMIT, DIM_LIMIT, MAX_DOT,
};
use crate::table::{
    bounded_table, emb_find, emb_insert, emb_model, kw_insert, kw_model, kw_value_model,
    lemma_insert, lemma_insert_bounded, spec_insert, spec_lookup, unique_keys, EmbModel, KwModel,
};
use crate::json::{
    json_doc_entries, json_wf, parse_top, value_array, value_string, value_items, value_text,
    ParsedDoc,
};
use vstd::string::StringExecFns;
use crate::text::{
    chars_models, chars_of, clone_chars, filter_chars, join_spaces, lemma_parse_fixed_bounds,
    lines_of, lower_of, lowercase_chars, parse_fixed, parse_token, spec_filter, spec_join,
    split_lines, split_ws, str_models, string_from_chars, tokens_of,
};

verus! {

/// Reports that the module is present; always zero.
pub fn initialize() -> (r: i32)
    ensures
        r == 0,
{
    0
}

/// Translates short natural-language text into emoji by looking each word
/// up in a word-embedding table and picking, per word, the emoji whose
/// keyword set is most similar under cosine similarity.
pub struct EmojiTranslator {
    embeddings: Vec<(Vec<char>, Vec<i64>)>,
    emoji_keywords: Vec<(String, Vec<Vec<char>>)>,
}

/// The translator's mathematical model: its two tables.
pub struct TranslatorModel {
    pub embeddings: EmbModel,
    pub keywords: KwModel,
}

impl View for EmojiTranslator {
    type V = TranslatorModel;

    closed spec fn view(&self) -> TranslatorModel {
        TranslatorModel {
            embeddings: emb_model(self.embeddings@),
            keywords: kw_model(self.emoji_keywords@),
        }
    }
}

impl EmojiTranslator {
    /// Both tables have distinct keys, and every stored vector is non-empty
    /// and bounded.
    pub open spec fn wf(&self) -> bool {
        &&& unique_keys(self@.embeddings)
        &&& bounded_table(self@.embeddings)
        &&& unique_keys(self@.keywords)
    }

    /// A translator with both tables empty.
    pub fn new() -> (r: Self)
        ensures
            r.wf(),
            r@.embeddings.len() == 0,
            r@.keywords.len() == 0,
    {
        Self { embeddings: Vec::new(), emoji_keywords: Vec::new() }
    }

    /// The best-scoring emoji for the given word vector, exactly as
    /// `best_match` describes.
    fn scan_best(&self, wv: &Vec<i64>) -> (r: Option<String>)
        requires
            self.wf(),
            bounded_vec(wv@),
        ensures
            (match best_match(self@.embeddings, self@.keywords, wv@) {
                Option::None => r is None,
                Option::Some((em, sc)) => r matches Option::Some(e) && e@ == em,
            }),
    {
        let ghost emb = self@.embeddings;
        let ghost kw = self@.keywords;
        let na = dot_i128(wv, wv);
        proof {
            lemma_norm2_prefix(wv@, wv@.len() as int);
        }
        let mut best_emoji: Option<String> = Option::None;
        let mut best_dot: i128 = 1;
        let mut best_nk: i128 = 1;
        let ghost mut bspec: Option<(Seq<char>, ScoreVal)> = Option::None;
        let mut ei: usize = 0;
        while ei < self.emoji_keywords.len()
            invariant
                self.wf(),
                emb == self@.embeddings,
                kw == self@.keywords,
                kw.len() == self.emoji_keywords@.len(),
                0 <= ei <= kw.len(),
                na == spec_norm2(wv@),
                0 <= na <= MAX_DOT,
                bounded_vec(wv@),
                bspec == scan_table(emb, wv@, kw, ei as int, Option::<(Seq<char>, ScoreVal)>::None),
                (match bspec {
                    Option::None => best_emoji is None,
                    Option::Some((e, s)) => best_emoji matches Option::Some(be) && be@ == e && s
                        == (ScoreVal { num: best_dot as int, den: (na as int) * (best_nk as int) })
                        && 0 < best_dot <= MAX_DOT && 1 <= best_nk <= MAX_DOT && s.exceeds_half(),
                }),
            decreases kw.len() - ei,
        {
            let entry_kws = &self.emoji_keywords[ei].1;
            let ghost emoji_m = kw[ei as int].0;
            let ghost kws_m = kw[ei as int].1;
            proof {
                assert(kws_m.len() == entry_kws@.len());
            }
            let ghost entered = scan_table(
                emb,
                wv@,
                kw,
                ei as int,
                Option::<(Seq<char>, ScoreVal)>::None,
            );
            let mut kj: usize = 0;
            while kj < entry_kws.len()
                invariant
                    self.wf(),
                    emb == self@.embeddings,
                    kw == self@.keywords,
                    kw.len() == self.emoji_keywords@.len(),
                    0 <= ei < kw.len(),
                    0 <= kj <= kws_m.len(),
                    entry_kws == &self.emoji_keywords@[ei as int].1,
                    emoji_m == kw[ei as int].0,
                    kws_m == kw[ei as int].1,
                    kws_m.len() == entry_kws@.len(),
                    na == spec_norm2(wv@),
                    0 <= na <= MAX_DOT,
                    bounded_vec(wv@),
                    entered == scan_table(
                        emb,
                        wv@,
                        kw,
                        ei as int,
                        Option::<(Seq<char>, ScoreVal)>::None,
                    ),
                    bspec == scan_kws(emb, wv@, emoji_m, kws_m, kj as int, entered),
                    (match bspec {
                        Option::None => best_emoji is None,
                        Option::Some((e, s)) => best_emoji matches Option::Some(be) && be@ == e
                            && s == (ScoreVal {
                            num: best_dot as int,
                            den: (na as int) * (best_nk as int),
                        }) && 0 < best_dot <= MAX_DOT && 1 <= best_nk <= MAX_DOT
                            && s.exceeds_half(),
                    }),
                decreases kws_m.len() - kj,
            {
                let kwd = &entry_kws[kj];
                proof {
                    assert(kws_m[kj as int] == entry_kws@[kj as int]@);
                }
                match emb_find(&self.embeddings, kwd) {
                    Option::None => {
                        proof {
                            bspec = scan_kws(emb, wv@, emoji_m, kws_m, kj as int + 1, entered);
                        }
                    },
                    Option::Some(ki) => {
                        let kv = &self.embeddings[ki].1;
                        let ghost kvm = emb[ki as int].1;
                        proof {
                            assert(kv@ == kvm);
                            assert(bounded_vec(kvm) && kvm.len() > 0);
                        }
                        let ghost s = spec_score(wv@, kvm);
                        let mut qual = false;
                        let mut d: i128 = 0;
                        let mut nk: i128 = 0;
                        if wv.len() == kv.len() {
                            d = dot_i128(wv, kv);
                            nk = dot_i128(kv, kv);
                            proof {
                                lemma_norm2_prefix(kv@, kv@.len() as int);
                                lemma_mul_bounds_sq(d as int, MAX_DOT as int);
                                assert(0 <= (na as int) * (nk as int) <= MAX_DOT * MAX_DOT)
                                    by (nonlinear_arith)
                                    requires
                                        0 <= na <= MAX_DOT,
                                        0 <= nk <= MAX_DOT,
                                ;
                            }
                            let dd: i128 = d * d;
                            qual = d > 0 && 4 * dd > na * nk;
                            proof {
                                if na == 0 {
                                    lemma_norm2_prefix(wv@, wv@.len() as int);
                                    lemma_dot_prefix_zero_left(wv@, kvm, wv@.len() as int);
                                    assert(d == 0);
                                    assert(s == ScoreVal::zero());
                                } else if nk == 0 {
                                    lemma_norm2_prefix(kvm, kvm.len() as int);
                                    lemma_dot_prefix_sym(wv@, kvm, wv@.len() as int);
                                    lemma_dot_prefix_zero_left(kvm, wv@, kvm.len() as int);
                                    assert(d == 0);
                                    assert(s == ScoreVal::zero());
                                } else {
                                    assert(s == ScoreVal {
                                        num: d as int,
                                        den: (na as int) * (nk as int),
                                    });
                                    assert(4 * (d as int) * (d as int) == 4 * ((d as int) * (
                                    d as int))) by (nonlinear_arith);
                                }
                                assert(qual == s.exceeds_half());
                            }
                        } else {
                            proof {
                                assert(s == ScoreVal::zero());
                                assert(!s.exceeds_half());
                            }
                        }
                        if qual {
                            proof {
                                assert(d > 0);
                                assert(na > 0 && nk > 0) by {
                                    if na == 0 {
                                        lemma_norm2_prefix(wv@, wv@.len() as int);
                                        lemma_dot_prefix_zero_left(wv@, kvm, wv@.len() as int);
                                    }
                                    if nk == 0 {
                                        lemma_norm2_prefix(kvm, kvm.len() as int);
                                        lemma_dot_prefix_sym(wv@, kvm, wv@.len() as int);
                                        lemma_dot_prefix_zero_left(kvm, wv@, kvm.len() as int);
                                    }
                                }
                            }
                            let better = match &best_emoji {
                                Option::None => true,
                                Option::Some(_) => {
                                    proof {
                                        lemma_mul_bounds_sq(d as int, MAX_DOT as int);
                                        lemma_mul_bounds_sq(best_dot as int, MAX_DOT as int);
                                        assert(0 <= (d as int) * (d as int) * (best_nk as int)
                                            <= MAX_DOT * MAX_DOT * MAX_DOT) by (nonlinear_arith)
                                            requires
                                                0 < d <= MAX_DOT,
                                                1 <= best_nk <= MAX_DOT,
                                        ;
                                        assert(0 <= (best_dot as int) * (best_dot as int) * (
                                        nk as int) <= MAX_DOT * MAX_DOT * MAX_DOT)
                                            by (nonlinear_arith)
                                            requires
                                                0 < best_dot <= MAX_DOT,
                                                1 <= nk <= MAX_DOT,
                                        ;
                                    }
                                    let c1: i128 = d * d * best_nk;
                                    let c2: i128 = best_dot * best_dot * nk;
                                    c1 > c2
                                },
                            };
                            proof {
                                match bspec {
                                    Option::None => {},
                                    Option::Some((e, bs)) => {
                                        assert((s.gt(bs)) == ((d as int) * (d as int) * (
                                        best_nk as int) > (best_dot as int) * (best_dot as int) * (
                                        nk as int))) by (nonlinear_arith)
                                            requires
                                                s == (ScoreVal {
                                                    num: d as int,
                                                    den: (na as int) * (nk as int),
                                                }),
                                                bs == (ScoreVal {
                                                    num: best_dot as int,
                                                    den: (na as int) * (best_nk as int),
                                                }),
                                                d > 0,
                                                best_dot > 0,
                                                na > 0,
                                        ;
                                    },
                                }
                            }
                            if better {
                                best_emoji = Option::Some(self.emoji_keywords[ei].0.clone());
                                best_dot = d;
                                best_nk = nk;
                                proof {
                                    bspec = Option::Some((emoji_m, s));
                                }
                            }
                        }
                        proof {
                            bspec = scan_kws(emb, wv@, emoji_m, kws_m, kj as int + 1, entered);
                        }
                    },
                }
                kj = kj + 1;
            }
            proof {
                assert(bspec == scan_table(
                    emb,
                    wv@,
                    kw,
                    ei as int + 1,
                    Option::<(Seq<char>, ScoreVal)>::None,
                ));
            }
            ei = ei + 1;
        }
        best_emoji
    }
}

/// The values read from one line's tokens after its leading word;
/// unreadable tokens are dropped.
pub open spec fn parse_values(toks: Seq<Seq<char>>, n: int) -> Seq<i64>
    decreases n,
{
    if n <= 1 {
        Seq::empty()
    } else {
        let rest = parse_values(toks, n - 1);
        match parse_fixed(toks[n - 1]) {
            Option::None => rest,
            Option::Some(v) => rest.push(v),
        }
    }
}

/// Every value read from a line lies within the component bound.
pub proof fn lemma_parse_values_bounded(toks: Seq<Seq<char>>, n: int)
    ensures
        forall|q: int|
            0 <= q < parse_values(toks, n).len() ==> -COMP_LIMIT <= #[trigger] parse_values(
                toks,
                n,
            )[q] <= COMP_LIMIT,
    decreases n,
{
    if n > 1 {
        lemma_parse_values_bounded(toks, n - 1);
        let rest = parse_values(toks, n - 1);
        let cur = parse_values(toks, n);
        match parse_fixed(toks[n - 1]) {
            Option::None => {
                assert forall|q: int|
                    0 <= q < cur.len() implies -COMP_LIMIT <= #[trigger] cur[q] <= COMP_LIMIT by {
                    assert(cur[q] == rest[q]);
                }
            },
            Option::Some(v) => {
                lemma_parse_fixed_bounds(toks[n - 1]);
                assert forall|q: int|
                    0 <= q < cur.len() implies -COMP_LIMIT <= #[trigger] cur[q] <= COMP_LIMIT by {
                    if q < rest.len() {
                        assert(cur[q] == rest[q]);
                    } else {
                        assert(cur[q] == v);
                    }
                }
            },
        }
    }
}

/// One line's effect on the embedding table: lines with fewer than two
/// tokens, and lines whose vector reads empty or over-long, change
/// nothing; otherwise the line's word maps to its vector, overwriting any
/// earlier entry.
pub open spec fn line_insert(tbl: EmbModel, line: Seq<char>) -> EmbModel {
    let toks = tokens_of(line);
    if toks.len() <= 1 {
        tbl
    } else {
        let vals = parse_values(toks, toks.len() as int);
        if 1 <= vals.len() && vals.len() <= DIM_LIMIT {
            spec_insert(tbl, toks[0], vals)
        } else {
            tbl
        }
    }
}

/// The embedding table after reading the first `n` lines.
pub open spec fn load_prefix(tbl: EmbModel, lines: Seq<Seq<char>>, n: int) -> EmbModel
    decreases n,
{
    if n <= 0 {
        tbl
    } else {
        line_insert(load_prefix(tbl, lines, n - 1), lines[n - 1])
    }
}

/// The keyword list read from the first `n` elements of an array: its
/// strings, in order; other elements are dropped.
pub open spec fn keywords_of(items: Seq<Option<Seq<char>>>, n: int) -> Seq<Seq<char>>
    decreases n,
{
    if n <= 0 {
        Seq::empty()
    } else {
        let rest = keywords_of(items, n - 1);
        match items[n - 1] {
            Option::None => rest,
            Option::Some(t) => rest.push(t),
        }
    }
}

/// The keyword table after reading the first `n` document entries: a key
/// mapped to an array gets that array's strings (overwriting an earlier
/// entry for the same key); a key mapped to any other value gets no entry.
pub open spec fn load_kw_prefix(
    tbl: KwModel,
    entries: Seq<(Seq<char>, Option<Seq<Option<Seq<char>>>>)>,
    n: int,
) -> KwModel
    decreases n,
{
    if n <= 0 {
        tbl
    } else {
        let prev = load_kw_prefix(tbl, entries, n - 1);
        match entries[n - 1].1 {
            Option::None => prev,
            Option::Some(items) => spec_insert(
                prev,
                entries[n - 1].0,
                keywords_of(items, items.len() as int),
            ),
        }
    }
}

/// The keyword table after reading a whole document's top-level entries.
pub open spec fn spec_load_keywords(
    tbl: KwModel,
    entries: Seq<(Seq<char>, Option<Seq<Option<Seq<char>>>>)>,
) -> KwModel {
    load_kw_prefix(tbl, entries, entries.len() as int)
}

/// The failure text for an unparsable keyword document: the fixed prefix
/// the loader writes, followed by the parser's own description.
pub open spec fn is_parse_error_message(m: Seq<char>) -> bool {
    m.len() >= "Error parsing JSON: "@.len() && m.take("Error parsing JSON: "@.len() as int)
        == "Error parsing JSON: "@
}

/// The embedding table after reading a whole corpus, line by line.
pub open spec fn spec_load_embeddings(tbl: EmbModel, data: Seq<char>) -> EmbModel {
    load_prefix(tbl, lines_of(data), lines_of(data).len() as int)
}

impl EmojiTranslator {
    /// Read an embedding corpus: one word and its vector per line.
    /// Malformed units are dropped; a later line for a word overwrites an
    /// earlier one.
    fn load_glove_embeddings(&mut self, data: &str) -> (r: Result<(), String>)
        requires
            old(self).wf(),
        ensures
            final(self).wf(),
            r is Ok,
            final(self)@.embeddings == spec_load_embeddings(old(self)@.embeddings, data@),
            final(self)@.keywords == old(self)@.keywords,
    {
        let ghost tbl0 = self@.embeddings;
        let cs = chars_of(data);
        let lines = split_lines(&cs);
        let ghost lmodels = chars_models(lines@);
        let mut li: usize = 0;
        while li < lines.len()
            invariant
                lmodels == chars_models(lines@),
                lmodels == lines_of(cs@),
                cs@ == data@,
                lmodels.len() == lines@.len(),
                0 <= li <= lines@.len(),
                self@.embeddings == load_prefix(tbl0, lmodels, li as int),
                unique_keys(self@.embeddings),
                bounded_table(self@.embeddings),
                self@.keywords == old(self)@.keywords,
                unique_keys(self@.keywords),
            decreases lines@.len() - li,
        {
            let ghost lm = lmodels[li as int];
            let toks = split_ws(&lines[li]);
            let ghost tmodels = chars_models(toks@);
            proof {
                assert(lines@[li as int]@ == lm);
                assert(tmodels == tokens_of(lm));
            }
            if toks.len() > 1 {
                let mut vals: Vec<i64> = Vec::new();
                let mut j: usize = 1;
                while j < toks.len()
                    invariant
                        1 <= j <= toks@.len(),
                        tmodels == chars_models(toks@),
                        tmodels.len() == toks@.len(),
                        vals@ == parse_values(tmodels, j as int),
                    decreases toks@.len() - j,
                {
                    proof {
                        assert(tmodels[j as int] == toks@[j as int]@);
                    }
                    match parse_token(&toks[j]) {
                        Option::Some(v) => {
                            vals.push(v);
                        },
                        Option::None => {},
                    }
                    j = j + 1;
                }
                if vals.len() >= 1 && vals.len() <= DIM_LIMIT {
                    let word = clone_chars(&toks[0]);
                    let ghost before = self@.embeddings;
                    proof {
                        lemma_parse_values_bounded(tmodels, tmodels.len() as int);
                        assert(bounded_vec(vals@));
                        lemma_insert(before, word@, vals@);
                        lemma_insert_bounded(before, word@, vals@);
                        assert(word@ == tmodels[0]);
                    }
                    emb_insert(&mut self.embeddings, word, vals);
                    proof {
                        assert(self@.embeddings == line_insert(before, lm));
                    }
                }
            }
            proof {
                assert(self@.embeddings == load_prefix(tbl0, lmodels, li as int + 1));
            }
            li = li + 1;
        }
        Result::Ok(())
    }

    /// Read a keyword document: a JSON object from emoji symbol to an array
    /// of keyword strings.  Only text that is not JSON at all is an error;
    /// a non-object top level, non-array values, and non-string array
    /// elements are tolerated and skipped.
    fn load_emoji_keywords(&mut self, json_str: &str) -> (r: Result<(), String>)
        requires
            old(self).wf(),
        ensures
            final(self).wf(),
            r is Ok <==> json_wf(json_str@),
            (r matches Err(m) ==> is_parse_error_message(m@)),
            final(self)@.embeddings == old(self)@.embeddings,
            !json_wf(json_str@) ==> final(self)@.keywords == old(self)@.keywords,
            (json_wf(json_str@) && json_doc_entries(json_str@) is None) ==> final(self)@.keywords
                == old(self)@.keywords,
            (json_wf(json_str@) && json_doc_entries(json_str@) is Some) ==> final(self)@.keywords
                == spec_load_keywords(old(self)@.keywords, json_doc_entries(json_str@).unwrap()),
    {
        let ghost old_kw = self@.keywords;
        match parse_top(json_str) {
            Result::Err(raw) => {
                let mut m = String::from_str("Error parsing JSON: ");
                m.append(raw.as_str());
                proof {
                    assert(m@.take("Error parsing JSON: "@.len() as int) =~= "Error parsing JSON: "@);
                }
                Result::Err(m)
            },
            Result::Ok(ParsedDoc::Other) => Result::Ok(()),
            Result::Ok(ParsedDoc::Mapping(entries)) => {
                let ghost ents = json_doc_entries(json_str@).unwrap();
                let ghost orig = entries@;
                proof {
                    assert(ents == orig.map_values(
                        |p: (String, serde_json::Value)| (p.0@, value_items(p.1)),
                    ));
                    assert(ents.len() == orig.len());
                }
                let mut entries = entries;
                let ghost mut done: int = 0;
                while entries.len() > 0
                    invariant
                        unique_keys(self@.keywords),
                        self@.embeddings == old(self)@.embeddings,
                        bounded_table(self@.embeddings),
                        unique_keys(self@.embeddings),
                        ents == json_doc_entries(json_str@).unwrap(),
                        ents == orig.map_values(
                            |p: (String, serde_json::Value)| (p.0@, value_items(p.1)),
                        ),
                        ents.len() == orig.len(),
                        0 <= done <= orig.len(),
                        done + entries@.len() == orig.len(),
                        entries@ == orig.skip(done),
                        self@.keywords == load_kw_prefix(old_kw, ents, done),
                    decreases entries@.len(),
                {
                    proof {
                        assert(entries@[0] == orig.skip(done)[0]);
                        assert(ents[done] == (orig[done].0@, value_items(orig[done].1)));
                    }
                    let (emoji, val) = entries.remove(0);
                    proof {
                        assert(entries@ =~= orig.skip(done + 1));
                        assert(emoji@ == ents[done].0);
                        assert(value_items(val) == ents[done].1);
                    }
                    match value_array(val) {
                        Option::None => {
                            proof {
                                assert(ents[done].1 is None);
                                done = done + 1;
                            }
                        },
                        Option::Some(items) => {
                            let ghost itemsm = value_items(val).unwrap();
                            let ghost iorig = items@;
                            proof {
                                assert(itemsm == iorig.map_values(
                                    |it: serde_json::Value| value_text(it),
                                ));
                                assert(itemsm.len() == iorig.len());
                            }
                            let mut items = items;
                            let ghost mut idone: int = 0;
                            let mut kws: Vec<Vec<char>> = Vec::new();
                            proof {
                                assert(kw_value_model(kws@) =~= keywords_of(itemsm, 0));
                            }
                            while items.len() > 0
                                invariant
                                    itemsm.len() == iorig.len(),
                                    itemsm == iorig.map_values(
                                        |it: serde_json::Value| value_text(it),
                                    ),
                                    0 <= idone <= iorig.len(),
                                    idone + items@.len() == iorig.len(),
                                    items@ == iorig.skip(idone),
                                    kw_value_model(kws@) == keywords_of(itemsm, idone),
                                decreases items@.len(),
                            {
                                proof {
                                    assert(items@[0] == iorig.skip(idone)[0]);
                                    assert(itemsm[idone] == value_text(iorig[idone]));
                                }
                                let item = items.remove(0);
                                let ghost prev_kws = kws@;
                                proof {
                                    assert(items@ =~= iorig.skip(idone + 1));
                                }
                                match value_string(item) {
                                    Option::Some(sv) => {
                                        let cv = chars_of(sv.as_str());
                                        kws.push(cv);
                                        proof {
                                            assert(kw_value_model(kws@) =~= kw_value_model(
                                                prev_kws,
                                            ).push(sv@));
                                        }
                                    },
                                    Option::None => {},
                                }
                                proof {
                                    idone = idone + 1;
                                }
                            }
                            proof {
                                assert(keywords_of(itemsm, idone) == keywords_of(
                                    itemsm,
                                    itemsm.len() as int,
                                ));
                            }
                            let ghost before = self@.keywords;
                            proof {
                                lemma_insert(before, emoji@, kw_value_model(kws@));
                            }
                            kw_insert(&mut self.emoji_keywords, emoji, kws);
                            proof {
                                done = done + 1;
                                assert(self@.keywords == load_kw_prefix(old_kw, ents, done));
                            }
                        },
                    }
                }
                proof {
                    assert(done == ents.len());
                }
                Result::Ok(())
            },
        }
    }

    /// Load both tables.  The embedding corpus never fails; the keyword
    /// document fails exactly when it is not valid JSON, and then the
    /// keyword table is left as it was, with the embeddings already loaded.
    pub fn initialize(&mut self, glove_data: &str, emoji_json: &str) -> (r: Result<(), String>)
        requires
            old(self).wf(),
        ensures
            final(self).wf(),
            final(self)@.embeddings == spec_load_embeddings(old(self)@.embeddings, glove_data@),
            r is Ok <==> json_wf(emoji_json@),
            (r matches Err(m) ==> is_parse_error_message(m@)),
            !json_wf(emoji_json@) ==> final(self)@.keywords == old(self)@.keywords,
            (json_wf(emoji_json@) && json_doc_entries(emoji_json@) is None) ==> final(self)@.keywords == old(self)@.keywords,
            (json_wf(emoji_json@) && json_doc_entries(emoji_json@) is Some) ==> final(self)@.keywords == spec_load_keywords(
                old(self)@.keywords,
                json_doc_entries(emoji_json@).unwrap(),
            ),
    {
        let g = self.load_glove_embeddings(glove_data);
        match g {
            Result::Err(e) => Result::Err(e),
            Result::Ok(()) => self.load_emoji_keywords(emoji_json),
        }
    }

    /// The translation of already-filtered text, token by token.
    fn process_chars(&self, text: &Vec<char>) -> (r: String)
        requires
            self.wf(),
        ensures
            r@ == spec_join(spec_outputs(self@.embeddings, self@.keywords, tokens_of(text@))),
    {
        let ghost emb = self@.embeddings;
        let ghost kw = self@.keywords;
        let tokens = split_ws(text);
        let ghost tmodels = chars_models(tokens@);
        let mut out: Vec<String> = Vec::new();
        let mut ti: usize = 0;
        proof {
            assert(str_models(out@) =~= outputs_prefix(emb, kw, tmodels, 0));
        }
        while ti < tokens.len()
            invariant
                self.wf(),
                emb == self@.embeddings,
                kw == self@.keywords,
                tmodels == chars_models(tokens@),
                tmodels == tokens_of(text@),
                tmodels.len() == tokens@.len(),
                0 <= ti <= tokens@.len(),
                str_models(out@) == outputs_prefix(emb, kw, tmodels, ti as int),
            decreases tokens@.len() - ti,
        {
            let ghost tm = tmodels[ti as int];
            proof {
                assert(tm == tokens@[ti as int]@);
            }
            let lc = lowercase_chars(&tokens[ti]);
            let ghost prev_out = out@;
            match emb_find(&self.embeddings, &lc) {
                Option::None => {
                    proof {
                        assert(token_emoji(emb, kw, tm) is None);
                    }
                },
                Option::Some(wi) => {
                    let wv = &self.embeddings[wi].1;
                    proof {
                        assert(wv@ == emb[wi as int].1);
                        assert(bounded_vec(wv@));
                        assert(spec_lookup(emb, lower_of(tm)) == Option::Some(wv@));
                    }
                    let best = self.scan_best(wv);
                    match best {
                        Option::Some(e) => {
                            proof {
                                assert(token_emoji(emb, kw, tm) == Option::Some(e@));
                            }
                            out.push(e);
                        },
                        Option::None => {
                            proof {
                                assert(token_emoji(emb, kw, tm) is None);
                            }
                        },
                    }
                },
            }
            proof {
                match token_emoji(emb, kw, tm) {
                    Option::None => {
                        assert(str_models(out@) =~= outputs_prefix(emb, kw, tmodels, ti as int + 1));
                    },
                    Option::Some(e) => {
                        assert(str_models(out@) =~= str_models(prev_out).push(e));
                        assert(str_models(out@) =~= outputs_prefix(emb, kw, tmodels, ti as int + 1));
                    },
                }
            }
            ti = ti + 1;
        }
        join_spaces(&out)
    }

    /// Translate raw text: filter it, split it into words, and map each
    /// word to its best-matching emoji, joined with single spaces.  Empty
    /// input yields empty output, and the call never fails.
    pub fn translate_text(&self, text: &str) -> (r: String)
        requires
            self.wf(),
        ensures
            r@ == spec_translate(self@.embeddings, self@.keywords, text@),
            text@.len() == 0 ==> r@.len() == 0,
    {
        let cs = chars_of(text);
        let filtered = filter_chars(&cs);
        let r = self.process_chars(&filtered);
        proof {
            if text@.len() == 0 {
                lemma_translate_empty(self@.embeddings, self@.keywords, text@);
            }
        }
        r
    }

    /// Cosine similarity of two vectors as an exact score.
    pub fn cosine_similarity(&self, a: &Vec<i64>, b: &Vec<i64>) -> (r: Score)
        requires
            bounded_vec(a@),
            bounded_vec(b@),
        ensures
            r@ == spec_score(a@, b@),
            r.wf(),
    {
        crate::score::cosine_similarity(a, b)
    }

    /// Keep only alphanumeric characters, whitespace, and periods,
    /// preserving the order and multiplicity of what stays.
    pub fn filter_text(&self, text: &str) -> (r: String)
        ensures
            r@ == spec_filter(text@),
    {
        let cs = chars_of(text);
        let f = filter_chars(&cs);
        string_from_chars(&f)
    }
}

} // verus!

