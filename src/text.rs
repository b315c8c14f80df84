//! Normalisation of raw text into tokens and phrases: ASCII lower-casing,
//! removal of punctuation, splitting on whitespace, stop-word handling and
//! stemming.
use human_regex::{one_or_more, punctuation};
use rust_stemmers::{Algorithm, Stemmer};
use vstd::prelude::*;

verus! {

/// `c` is one of the code points with the Unicode `White_Space` property,
/// the set that `char::is_whitespace` tests.
pub open spec fn is_space(c: char) -> bool {
    let u = c as u32;
    (0x09 <= u && u <= 0x0d) || u == 0x20 || u == 0x85 || u == 0xa0 || u == 0x1680
        || (0x2000 <= u && u <= 0x200a) || u == 0x2028 || u == 0x2029 || u == 0x202f
        || u == 0x205f || u == 0x3000
}

/// `c` is an ASCII punctuation character: `!` to `/`, `:` to `@`, `[` to a
/// backquote, `{` to `~`.
pub open spec fn is_ascii_punctuation(c: char) -> bool {
    let u = c as u32;
    (0x21 <= u && u <= 0x2f) || (0x3a <= u && u <= 0x40) || (0x5b <= u && u <= 0x60) || (0x7b
        <= u && u <= 0x7e)
}

/// ASCII lower case of one character; every other character is kept.
pub open spec fn lower_char(c: char) -> char {
    if 0x41 <= c as u32 && c as u32 <= 0x5a {
        (((c as u32) + 32) as u8) as char
    } else {
        c
    }
}

pub open spec fn ascii_lower(s: Seq<char>) -> Seq<char> {
    s.map_values(|c: char| lower_char(c))
}

pub open spec fn strip_punctuation_of(s: Seq<char>) -> Seq<char> {
    s.filter(|c: char| !is_ascii_punctuation(c))
}

/// The maximal runs of consecutive elements of `s` that are not separators,
/// in order. Separators belong to no run.
pub open spec fn runs<A>(s: Seq<A>, sep: spec_fn(A) -> bool) -> Seq<Seq<A>>
    decreases s.len(),
{
    if s.len() == 0 {
        Seq::empty()
    } else {
        let prev = runs(s.drop_last(), sep);
        let c = s.last();
        if sep(c) {
            prev
        } else if s.len() >= 2 && !sep(s[s.len() - 2]) {
            prev.drop_last().push(prev.last().push(c))
        } else {
            prev.push(seq![c])
        }
    }
}

/// The words of `s`: its maximal runs of non-whitespace characters.
pub open spec fn words_of(s: Seq<char>) -> Seq<Seq<char>> {
    runs(s, |c: char| is_space(c))
}

pub open spec fn views(v: Seq<String>) -> Seq<Seq<char>> {
    v.map_values(|s: String| s@)
}

/// A non-empty sequence without separators is a single run: itself.
pub proof fn lemma_runs_without_separator<A>(s: Seq<A>, sep: spec_fn(A) -> bool)
    requires
        s.len() > 0,
        forall|i: int| 0 <= i < s.len() ==> !sep(#[trigger] s[i]),
    ensures
        runs(s, sep) == seq![s],
    decreases s.len(),
{
    let t = s.drop_last();
    assert(!sep(s[s.len() - 1]));
    if s.len() >= 2 {
        assert forall|i: int| 0 <= i < t.len() implies !sep(#[trigger] t[i]) by {
            assert(t[i] == s[i]);
        }
        lemma_runs_without_separator(t, sep);
        assert(!sep(s[s.len() - 2]));
        assert(t.push(s.last()) =~= s);
        assert(seq![t].drop_last().push(t.push(s.last())) =~= seq![s]);
    } else {
        assert(t.len() == 0);
        assert(seq![s.last()] =~= s);
        assert(runs(t, sep) =~= Seq::<Seq<A>>::empty());
        assert(Seq::<Seq<A>>::empty().push(seq![s.last()]) =~= seq![s]);
    }
}

/// Every run is non-empty and holds no separator.
pub proof fn lemma_runs_elements<A>(s: Seq<A>, sep: spec_fn(A) -> bool)
    ensures
        forall|i: int|
            0 <= i < runs(s, sep).len() ==> (#[trigger] runs(s, sep)[i]).len() > 0 && forall|j: int|
                0 <= j < runs(s, sep)[i].len() ==> !sep(#[trigger] runs(s, sep)[i][j]),
    decreases s.len(),
{
    if s.len() > 0 {
        let t = s.drop_last();
        let prev = runs(t, sep);
        let r = runs(s, sep);
        let c = s.last();
        lemma_runs_elements(t, sep);
        if sep(c) {
            assert(r == prev);
        } else if s.len() >= 2 && !sep(s[s.len() - 2]) {
            assert(t.last() == s[s.len() - 2]);
            lemma_runs_not_empty(t, sep);
            let l = prev.last().push(c);
            assert(r == prev.drop_last().push(l));
            assert(prev[prev.len() - 1] == prev.last());
            assert forall|i: int| 0 <= i < r.len() implies (#[trigger] r[i]).len() > 0 && forall|j: int|
                0 <= j < r[i].len() ==> !sep(#[trigger] r[i][j]) by {
                if i < r.len() - 1 {
                    assert(r[i] == prev[i]);
                } else {
                    assert(r[i] == l);
                    assert forall|j: int| 0 <= j < l.len() implies !sep(#[trigger] l[j]) by {
                        if j < l.len() - 1 {
                            assert(l[j] == prev[prev.len() - 1][j]);
                        }
                    }
                }
            }
        } else {
            assert(r == prev.push(seq![c]));
            assert forall|i: int| 0 <= i < r.len() implies (#[trigger] r[i]).len() > 0 && forall|j: int|
                0 <= j < r[i].len() ==> !sep(#[trigger] r[i][j]) by {
                if i < r.len() - 1 {
                    assert(r[i] == prev[i]);
                } else {
                    assert(r[i] == seq![c]);
                }
            }
        }
    }
}

/// A sequence that ends in a non-separator has at least one run.
proof fn lemma_runs_not_empty<A>(s: Seq<A>, sep: spec_fn(A) -> bool)
    requires
        s.len() > 0,
        !sep(s.last()),
    ensures
        runs(s, sep).len() > 0,
    decreases s.len(),
{
    if s.len() >= 2 && !sep(s[s.len() - 2]) {
        let t = s.drop_last();
        assert(t.last() == s[s.len() - 2]);
        lemma_runs_not_empty(t, sep);
    }
}

/// A word of a text is its own only word.
pub proof fn lemma_word_is_one_word(s: Seq<char>, i: int)
    requires
        0 <= i < words_of(s).len(),
    ensures
        words_of(words_of(s)[i]) == seq![words_of(s)[i]],
{
    let sep = |c: char| is_space(c);
    lemma_runs_elements(s, sep);
    let w = words_of(s)[i];
    assert forall|j: int| 0 <= j < w.len() implies !sep(#[trigger] w[j]) by {
        assert(!sep(runs(s, sep)[i][j]));
    }
    lemma_runs_without_separator(w, sep);
}

/// Segmenting a non-empty token stream that holds no stop-word gives exactly
/// one phrase: the whole stream, joined by single spaces.
pub proof fn lemma_segment_without_stop_words(tokens: Seq<Seq<char>>, stops: Seq<Seq<char>>)
    requires
        tokens.len() > 0,
        forall|i: int| 0 <= i < tokens.len() ==> !stops.contains(#[trigger] tokens[i]),
    ensures
        phrases_of(tokens, stops) == seq![join_words(tokens)],
{
    let sep = |t: Seq<char>| stops.contains(t);
    lemma_runs_without_separator(tokens, sep);
    assert(runs(tokens, sep).map_values(|p: Seq<Seq<char>>| join_words(p)) =~= seq![
        join_words(tokens),
    ]);
}

fn is_whitespace(c: char) -> (r: bool)
    ensures
        r == is_space(c),
{
    let u = c as u32;
    (0x09 <= u && u <= 0x0d) || u == 0x20 || u == 0x85 || u == 0xa0 || u == 0x1680
        || (0x2000 <= u && u <= 0x200a) || u == 0x2028 || u == 0x2029 || u == 0x202f
        || u == 0x205f || u == 0x3000
}

/// The characters of `s`, in order.
fn chars_of(s: &str) -> (r: Vec<char>)
    ensures
        r@ == s@,
{
    let mut out: Vec<char> = Vec::new();
    for c in it: s.chars()
        invariant
            it.seq() == s@,
            out@ == s@.take(it.index() as int),
    {
        out.push(c);
        assert(s@.take(it.index() + 1) =~= out@);
    }
    assert(s@.take(s@.len() as int) =~= s@);
    out
}

/// Relies on `FromIterator<char>` for `String`: the string of these characters.
#[verifier::external_body]
fn string_of(cs: &Vec<char>) -> (r: String)
    ensures
        r@ == cs@,
{
    cs.iter().collect()
}

/// ASCII lower case of `text`, as `str::to_ascii_lowercase` gives it.
pub fn to_ascii_lowercase(text: &str) -> (r: String)
    ensures
        r@ == ascii_lower(text@),
{
    let cs = chars_of(text);
    let mut out: Vec<char> = Vec::new();
    for i in 0..cs.len()
        invariant
            cs@ == text@,
            out@ == ascii_lower(cs@.take(i as int)),
    {
        let c = cs[i];
        let u = c as u32;
        let d = if 0x41 <= u && u <= 0x5a {
            ((u + 32) as u8) as char
        } else {
            c
        };
        assert(cs@.take(i + 1) == cs@.take(i as int).push(c));
        out.push(d);
    }
    assert(cs@.take(cs.len() as int) == cs@);
    string_of(&out)
}

/// Splits `text` into its words, as `str::split_whitespace` does.
pub fn split_words(text: &str) -> (r: Vec<String>)
    ensures
        views(r@) == words_of(text@),
{
    let cs = chars_of(text);
    let mut words: Vec<String> = Vec::new();
    let mut cur: Vec<char> = Vec::new();
    for i in 0..cs.len()
        invariant
            cs@ == text@,
            cur@.len() > 0 <==> (i > 0 && !is_space(cs@[i - 1])),
            cur@.len() > 0 ==> words_of(cs@.take(i as int)) == views(words@).push(cur@),
            cur@.len() == 0 ==> words_of(cs@.take(i as int)) == views(words@),
    {
        let c = cs[i];
        let ghost s = cs@.take(i + 1);
        assert(s.drop_last() == cs@.take(i as int));
        assert(s.last() == c);
        if i > 0 {
            assert(s[s.len() - 2] == cs@[i - 1]);
        }
        assert(words_of(s) == runs(s, |c: char| is_space(c)));
        if is_whitespace(c) {
            if cur.len() > 0 {
                let w = string_of(&cur);
                proof {
                    assert(views(words@.push(w)) =~= views(words@).push(w@));
                }
                words.push(w);
                cur = Vec::new();
            }
        } else {
            let ghost before = cur@;
            cur.push(c);
            proof {
                let prev = words_of(cs@.take(i as int));
                if before.len() > 0 {
                    assert(words_of(s) == prev.drop_last().push(prev.last().push(c)));
                    assert(prev.drop_last() =~= views(words@));
                } else {
                    assert(words_of(s) == prev.push(seq![c]));
                    assert(seq![c] =~= cur@);
                }
            }
        }
    }
    assert(cs@.take(cs.len() as int) == cs@);
    if cur.len() > 0 {
        let w = string_of(&cur);
        proof {
            assert(views(words@.push(w)) =~= views(words@).push(w@));
        }
        words.push(w);
    }
    words
}


/// The words of `text` once it is lower-cased (ASCII) and stripped of
/// punctuation.
pub open spec fn normalized_words(text: Seq<char>) -> Seq<Seq<char>> {
    words_of(strip_punctuation_of(ascii_lower(text)))
}

/// The English Snowball stem of a word.
pub uninterp spec fn stem_of(word: Seq<char>) -> Seq<char>;

/// Tokens of the TF-IDF view: the normalised words that are not stop-words,
/// each stemmed.
pub open spec fn tfidf_tokens(text: Seq<char>, stops: Seq<Seq<char>>) -> Seq<Seq<char>> {
    normalized_words(text).filter(|w: Seq<char>| !stops.contains(w)).map_values(
        |w: Seq<char>| stem_of(w),
    )
}

/// Tokens of the RAKE view: every normalised word, stop-words included, each
/// stemmed.
pub open spec fn rake_tokens(text: Seq<char>) -> Seq<Seq<char>> {
    normalized_words(text).map_values(|w: Seq<char>| stem_of(w))
}

/// Words joined by single spaces.
pub open spec fn join_words(ws: Seq<Seq<char>>) -> Seq<char>
    decreases ws.len(),
{
    if ws.len() == 0 {
        Seq::empty()
    } else if ws.len() == 1 {
        ws[0]
    } else {
        join_words(ws.drop_last()) + seq![' '] + ws.last()
    }
}

/// The phrases of a token stream: its maximal runs of tokens that are not
/// stop-words, each joined by single spaces.
pub open spec fn phrases_of(tokens: Seq<Seq<char>>, stops: Seq<Seq<char>>) -> Seq<Seq<char>> {
    runs(tokens, |t: Seq<char>| stops.contains(t)).map_values(|p: Seq<Seq<char>>| join_words(p))
}

/// Phrases of the RAKE view of `text`.
pub open spec fn rake_phrases(text: Seq<char>, stops: Seq<Seq<char>>) -> Seq<Seq<char>> {
    phrases_of(rake_tokens(text), stops)
}

/// Relies on human_regex's `one_or_more(punctuation())`, the pattern
/// `(?:[[:punct:]])+`, and on regex's `replace_all` with an empty replacement:
/// every ASCII punctuation character is removed, every other one is kept in
/// order.
#[verifier::external_body]
fn strip_punctuation(text: &str) -> (r: String)
    ensures
        r@ == strip_punctuation_of(text@),
{
    one_or_more(punctuation()).to_regex().replace_all(text, "").into_owned()
}

/// Relies on rust_stemmers' English stemmer: the stem depends on the word
/// alone.
#[verifier::external_body]
fn stem(word: &str) -> (r: String)
    ensures
        r@ == stem_of(word@),
{
    Stemmer::create(Algorithm::English).stem(word).into_owned()
}

/// Whether `word` is one of `words` (compared by characters).
pub fn contains_word(words: &Vec<String>, word: &String) -> (r: bool)
    ensures
        r == views(words@).contains(word@),
{
    let mut i: usize = 0;
    while i < words.len()
        invariant
            i <= words.len(),
            forall|j: int| 0 <= j < i ==> words@[j]@ != word@,
        decreases words.len() - i,
    {
        if words[i] == *word {
            assert(views(words@)[i as int] == word@);
            return true;
        }
        i = i + 1;
    }
    assert forall|j: int| 0 <= j < views(words@).len() implies views(words@)[j]
        != word@ by {
        assert(words@[j]@ != word@);
    }
    false
}

/// The words of `text` after ASCII lower-casing and removal of punctuation.
pub fn normalize(text: &str) -> (r: Vec<String>)
    ensures
        views(r@) == normalized_words(text@),
{
    let lower = to_ascii_lowercase(text);
    let stripped = strip_punctuation(lower.as_str());
    split_words(stripped.as_str())
}

/// The TF-IDF view of a document: lower-cased, stripped of punctuation, split
/// into words; stop-words are dropped and the remaining words stemmed.
pub fn tfidf_preprocess(document: String, stop_words: Vec<String>) -> (r: Vec<String>)
    ensures
        views(r@) == tfidf_tokens(document@, views(stop_words@)),
{
    tfidf_tokens_of(document.as_str(), &stop_words)
}

fn tfidf_tokens_of(document: &str, stop_words: &Vec<String>) -> (r: Vec<String>)
    ensures
        views(r@) == tfidf_tokens(document@, views(stop_words@)),
{
    let words = normalize(document);
    let ghost stops = views(stop_words@);
    let ghost keep = |w: Seq<char>| !stops.contains(w);
    let ghost st = |w: Seq<char>| stem_of(w);
    let mut out: Vec<String> = Vec::new();
    for i in 0..words.len()
        invariant
            views(words@) == normalized_words(document@),
            stops == views(stop_words@),
            keep == (|w: Seq<char>| !stops.contains(w)),
            st == (|w: Seq<char>| stem_of(w)),
            views(out@) == views(words@).take(i as int).filter(keep).map_values(st),
    {
        let ghost pre = views(words@).take(i as int);
        let ghost w = words@[i as int]@;
        assert(views(words@).take(i + 1) =~= pre.push(w));
        proof {
            pre.lemma_filter_push(w, keep);
        }
        if !contains_word(stop_words, &words[i]) {
            let s = stem(words[i].as_str());
            proof {
                assert(views(out@.push(s)) =~= views(out@).push(s@));
                assert(pre.filter(keep).push(w).map_values(st) =~= pre.filter(keep).map_values(
                    st,
                ).push(stem_of(w)));
            }
            out.push(s);
        }
    }
    assert(views(words@).take(words.len() as int) =~= views(words@));
    out
}


/// The words joined by single spaces.
pub fn join_with_spaces(words: &Vec<String>) -> (r: String)
    ensures
        r@ == join_words(views(words@)),
{
    let mut out: Vec<char> = Vec::new();
    for i in 0..words.len()
        invariant
            out@ == join_words(views(words@).take(i as int)),
    {
        let ghost pre = views(words@).take(i as int);
        let ghost next = views(words@).take(i + 1);
        assert(next.drop_last() =~= pre);
        assert(next.last() == words@[i as int]@);
        if i > 0 {
            out.push(' ');
        }
        let mut cs = chars_of(words[i].as_str());
        out.append(&mut cs);
        proof {
            if i == 0 {
                assert(out@ =~= next[0]);
            } else {
                assert(out@ =~= join_words(pre) + seq![' '] + next.last());
            }
        }
    }
    assert(views(words@).take(words.len() as int) =~= views(words@));
    string_of(&out)
}

/// Splits a token stream into phrases at stop-words: each maximal run of
/// tokens that are not stop-words becomes one phrase, its tokens joined by
/// single spaces. Stop-words belong to no phrase.
pub fn segment_phrases(tokens: &Vec<String>, stop_words: &Vec<String>) -> (r: Vec<String>)
    ensures
        views(r@) == phrases_of(views(tokens@), views(stop_words@)),
{
    let ghost stops = views(stop_words@);
    let ghost ts = views(tokens@);
    let ghost sep = |t: Seq<char>| stops.contains(t);
    let ghost jw = |p: Seq<Seq<char>>| join_words(p);
    let mut phrases: Vec<String> = Vec::new();
    let mut cur: Vec<String> = Vec::new();
    for i in 0..tokens.len()
        invariant
            stops == views(stop_words@),
            ts == views(tokens@),
            sep == (|t: Seq<char>| stops.contains(t)),
            jw == (|p: Seq<Seq<char>>| join_words(p)),
            cur@.len() > 0 <==> (i > 0 && !stops.contains(ts[i - 1])),
            cur@.len() > 0 ==> runs(ts.take(i as int), sep).map_values(jw) == views(
                phrases@,
            ).push(join_words(views(cur@))),
            cur@.len() > 0 ==> runs(ts.take(i as int), sep).len() > 0,
            cur@.len() > 0 ==> runs(ts.take(i as int), sep).last() == views(cur@),
            cur@.len() == 0 ==> runs(ts.take(i as int), sep).map_values(jw) == views(phrases@),
    {
        let ghost s = ts.take(i + 1);
        let ghost prev = runs(ts.take(i as int), sep);
        assert(s.drop_last() =~= ts.take(i as int));
        assert(s.last() == tokens@[i as int]@);
        if i > 0 {
            assert(s[s.len() - 2] == ts[i - 1]);
        }
        if contains_word(stop_words, &tokens[i]) {
            if cur.len() > 0 {
                let p = join_with_spaces(&cur);
                proof {
                    assert(views(phrases@.push(p)) =~= views(phrases@).push(p@));
                }
                phrases.push(p);
                cur = Vec::new();
            }
        } else {
            let ghost before = views(cur@);
            let t = tokens[i].clone();
            cur.push(t);
            proof {
                assert(views(cur@) =~= before.push(s.last()));
                if before.len() > 0 {
                    assert(runs(s, sep) == prev.drop_last().push(prev.last().push(s.last())));
                    assert(prev.map_values(jw).drop_last() =~= prev.drop_last().map_values(jw));
                    assert(views(phrases@).push(join_words(before)).drop_last() =~= views(
                        phrases@,
                    ));
                    assert(runs(s, sep).map_values(jw) =~= prev.drop_last().map_values(jw).push(
                        join_words(views(cur@)),
                    ));
                } else {
                    assert(runs(s, sep) == prev.push(seq![s.last()]));
                    assert(seq![s.last()] =~= views(cur@));
                    assert(runs(s, sep).map_values(jw) =~= prev.map_values(jw).push(
                        join_words(views(cur@)),
                    ));
                }
            }
        }
        proof {
            if cur@.len() == 0 && stops.contains(s.last()) {
                assert(runs(s, sep) == prev);
            }
        }
    }
    assert(ts.take(tokens.len() as int) =~= ts);
    if cur.len() > 0 {
        let p = join_with_spaces(&cur);
        proof {
            assert(views(phrases@.push(p)) =~= views(phrases@).push(p@));
        }
        phrases.push(p);
    }
    phrases
}

/// The RAKE view of a document as phrases: the text is lower-cased, stripped
/// of punctuation, split into words and every word stemmed; the phrases are
/// the runs of that stream between stop-words.
pub fn rake_preprocess(document: String, stop_words: Vec<String>) -> (r: Vec<String>)
    ensures
        views(r@) == rake_phrases(document@, views(stop_words@)),
{
    rake_phrases_of(document.as_str(), &stop_words)
}

fn rake_phrases_of(document: &str, stop_words: &Vec<String>) -> (r: Vec<String>)
    ensures
        views(r@) == rake_phrases(document@, views(stop_words@)),
{
    let words = normalize(document);
    let ghost st = |w: Seq<char>| stem_of(w);
    let mut tokens: Vec<String> = Vec::new();
    for i in 0..words.len()
        invariant
            views(words@) == normalized_words(document@),
            st == (|w: Seq<char>| stem_of(w)),
            views(tokens@) == views(words@).take(i as int).map_values(st),
    {
        let s = stem(words[i].as_str());
        proof {
            assert(views(tokens@.push(s)) =~= views(tokens@).push(s@));
            assert(views(words@).take(i + 1).map_values(st) =~= views(words@).take(
                i as int,
            ).map_values(st).push(stem_of(words@[i as int]@)));
        }
        tokens.push(s);
    }
    assert(views(words@).take(words.len() as int) =~= views(words@));
    segment_phrases(&tokens, stop_words)
}

/// The TF-IDF view of every document of a corpus, in order.
pub fn corpus_tfidf_preprocess(corpus: Vec<String>, stop_words: Vec<String>) -> (r: Vec<
    Vec<String>,
>)
    ensures
        r@.len() == corpus@.len(),
        forall|i: int|
            0 <= i < corpus@.len() ==> views(#[trigger] r@[i]@) == tfidf_tokens(
                corpus@[i]@,
                views(stop_words@),
            ),
{
    let mut processed: Vec<Vec<String>> = Vec::new();
    for i in 0..corpus.len()
        invariant
            processed@.len() == i,
            forall|j: int|
                0 <= j < i ==> views(#[trigger] processed@[j]@) == tfidf_tokens(
                    corpus@[j]@,
                    views(stop_words@),
                ),
    {
        processed.push(tfidf_tokens_of(corpus[i].as_str(), &stop_words));
    }
    processed
}

/// The RAKE phrases of every document of a corpus, in order.
pub fn corpus_rake_preprocess(corpus: Vec<String>, stop_words: Vec<String>) -> (r: Vec<
    Vec<String>,
>)
    ensures
        r@.len() == corpus@.len(),
        forall|i: int|
            0 <= i < corpus@.len() ==> views(#[trigger] r@[i]@) == rake_phrases(
                corpus@[i]@,
                views(stop_words@),
            ),
{
    let mut processed: Vec<Vec<String>> = Vec::new();
    for i in 0..corpus.len()
        invariant
            processed@.len() == i,
            forall|j: int|
                0 <= j < i ==> views(#[trigger] processed@[j]@) == rake_phrases(
                    corpus@[j]@,
                    views(stop_words@),
                ),
    {
        processed.push(rake_phrases_of(corpus[i].as_str(), &stop_words));
    }
    processed
}

} // verus!
