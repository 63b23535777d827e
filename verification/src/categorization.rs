//! The categorization memory: which category a word of a description was
//! last filed under.
//!
//! A description is cut into tokens; each token remembers one category and
//! how often it was reinforced. A suggestion is the category of the first
//! token of a description that the memory knows.

use vstd::prelude::*;
use crate::text::{
    chars_of, is_alphanumeric, text_of, texts, to_lowercase, unicode_alphanumeric,
    unicode_lowercase, utf8_len, utf8_len_exceeds,
};

verus! {

/// Whether `f` is a non-empty run of letters and numbers.
pub open spec fn is_word(f: Seq<char>) -> bool {
    f.len() > 0 && forall|i: int| 0 <= i < f.len() ==> unicode_alphanumeric(#[trigger] f[i])
}

/// The words that `s` has completed so far, and the word it ends in.
pub open spec fn scan_words(s: Seq<char>) -> (Seq<Seq<char>>, Seq<char>)
    decreases s.len(),
{
    if s.len() == 0 {
        (Seq::empty(), Seq::empty())
    } else {
        let (done, open) = scan_words(s.drop_last());
        if unicode_alphanumeric(s.last()) {
            (done, open.push(s.last()))
        } else if open.len() > 0 {
            (done.push(open), Seq::empty())
        } else {
            (done, open)
        }
    }
}

/// The words of `s`: its maximal runs of letters and numbers, in order.
pub open spec fn words(s: Seq<char>) -> Seq<Seq<char>> {
    let (done, open) = scan_words(s);
    if open.len() > 0 {
        done.push(open)
    } else {
        done
    }
}

/// Whether a lowercased word is long enough to be remembered: more than two
/// bytes of UTF-8.
pub open spec fn is_memorable(token: Seq<char>) -> bool {
    utf8_len(token) > 2
}

/// The tokens that a sequence of words gives: each word in lowercase, without
/// those that come out too short.
pub open spec fn tokens_of_words(ws: Seq<Seq<char>>) -> Seq<Seq<char>>
    decreases ws.len(),
{
    if ws.len() == 0 {
        Seq::empty()
    } else {
        let token = unicode_lowercase(ws.last());
        if is_memorable(token) {
            tokens_of_words(ws.drop_last()).push(token)
        } else {
            tokens_of_words(ws.drop_last())
        }
    }
}

/// The tokens of a description.
pub open spec fn tokenize_spec(s: Seq<char>) -> Seq<Seq<char>> {
    tokens_of_words(words(s))
}

/// Every word that scanning finds is a non-empty run of letters and numbers,
/// and so is the word that the text ends in, unless it is empty.
pub proof fn lemma_scan_words_are_words(s: Seq<char>)
    ensures
        forall|i: int| 0 <= i < scan_words(s).0.len() ==> is_word(#[trigger] scan_words(s).0[i]),
        scan_words(s).1.len() > 0 ==> is_word(scan_words(s).1),
    decreases s.len(),
{
    if s.len() > 0 {
        lemma_scan_words_are_words(s.drop_last());
        let (done, open) = scan_words(s.drop_last());
        if unicode_alphanumeric(s.last()) {
            let next = open.push(s.last());
            assert forall|i: int| 0 <= i < next.len() implies unicode_alphanumeric(
                #[trigger] next[i],
            ) by {
                if i < open.len() {
                    assert(next[i] == open[i]);
                }
            }
        }
    }
}

/// Every word of a text is a non-empty run of letters and numbers.
pub proof fn lemma_words_are_words(s: Seq<char>)
    ensures
        forall|i: int| 0 <= i < words(s).len() ==> is_word(#[trigger] words(s)[i]),
{
    lemma_scan_words_are_words(s);
}

/// Every token is the lowercase form of one of the words, and is memorable.
pub proof fn lemma_tokens_of_words_shape(ws: Seq<Seq<char>>)
    ensures
        forall|i: int|
            0 <= i < tokens_of_words(ws).len() ==> is_memorable(#[trigger] tokens_of_words(ws)[i])
                && exists|k: int|
                0 <= k < ws.len() && tokens_of_words(ws)[i] == unicode_lowercase(#[trigger] ws[k]),
    decreases ws.len(),
{
    if ws.len() > 0 {
        lemma_tokens_of_words_shape(ws.drop_last());
        let rest = tokens_of_words(ws.drop_last());
        assert forall|i: int| 0 <= i < tokens_of_words(ws).len() implies is_memorable(
            #[trigger] tokens_of_words(ws)[i],
        ) && exists|k: int|
            0 <= k < ws.len() && tokens_of_words(ws)[i] == unicode_lowercase(#[trigger] ws[k]) by {
            if i < rest.len() {
                let k = choose|k: int|
                    0 <= k < ws.drop_last().len() && rest[i] == unicode_lowercase(
                        #[trigger] ws.drop_last()[k],
                    );
                assert(ws[k] == ws.drop_last()[k]);
            } else {
                assert(tokens_of_words(ws)[i] == unicode_lowercase(ws[ws.len() - 1]));
            }
        }
    }
}

/// What holds of every token of every description: it takes more than two
/// bytes, and it is the lowercase form of a non-empty run of letters and
/// numbers of the description.
pub proof fn lemma_tokens_shape(s: Seq<char>)
    ensures
        forall|i: int|
            0 <= i < tokenize_spec(s).len() ==> utf8_len(#[trigger] tokenize_spec(s)[i]) > 2
                && exists|w: Seq<char>| #[trigger]
                is_word(w) && tokenize_spec(s)[i] == unicode_lowercase(w),
{
    lemma_words_are_words(s);
    lemma_tokens_of_words_shape(words(s));
    let ws = words(s);
    assert forall|i: int| 0 <= i < tokenize_spec(s).len() implies utf8_len(
        #[trigger] tokenize_spec(s)[i],
    ) > 2 && exists|w: Seq<char>| #[trigger]
        is_word(w) && tokenize_spec(s)[i] == unicode_lowercase(w) by {
        let k = choose|k: int|
            0 <= k < ws.len() && tokenize_spec(s)[i] == unicode_lowercase(#[trigger] ws[k]);
        assert(is_word(ws[k]));
    }
}

/// Whether `t` consists of letters and numbers only.
pub open spec fn is_alphanumeric_text(t: Seq<char>) -> bool {
    forall|i: int| 0 <= i < t.len() ==> unicode_alphanumeric(#[trigger] t[i])
}

/// Whether lowercasing keeps every word of `s` a run of letters and numbers.
/// It does for all but a few characters, whose lowercase form holds a
/// combining mark.
pub open spec fn lowercase_keeps_words(s: Seq<char>) -> bool {
    forall|k: int|
        0 <= k < words(s).len() ==> is_alphanumeric_text(
            unicode_lowercase(#[trigger] words(s)[k]),
        )
}

/// Where lowercasing keeps the words of a description runs of letters and
/// numbers, every token consists of letters and numbers only.
pub proof fn lemma_tokens_alphanumeric(s: Seq<char>)
    requires
        lowercase_keeps_words(s),
    ensures
        forall|i: int|
            0 <= i < tokenize_spec(s).len() ==> is_alphanumeric_text(
                #[trigger] tokenize_spec(s)[i],
            ),
{
    lemma_tokens_of_words_shape(words(s));
    let ws = words(s);
    assert forall|i: int| 0 <= i < tokenize_spec(s).len() implies is_alphanumeric_text(
        #[trigger] tokenize_spec(s)[i],
    ) by {
        let k = choose|k: int|
            0 <= k < ws.len() && tokenize_spec(s)[i] == unicode_lowercase(#[trigger] ws[k]);
        assert(is_alphanumeric_text(unicode_lowercase(ws[k])));
    }
}

/// Adds the token of `word` to `out`, if it is memorable.
fn push_token(out: &mut Vec<String>, word: &Vec<char>, Ghost(before): Ghost<Seq<Seq<char>>>)
    requires
        texts(old(out)@) == tokens_of_words(before),
    ensures
        texts(final(out)@) == tokens_of_words(before.push(word@)),
{
    let text = text_of(word);
    let token = to_lowercase(text.as_str());
    let token_chars = chars_of(token.as_str());
    assert(before.push(word@).drop_last() == before);
    if utf8_len_exceeds(&token_chars, 2) {
        assert(texts(out@.push(token)) == texts(out@).push(token@));
        out.push(token);
    }
}

/// Cuts a description into tokens: its runs of letters and numbers, in
/// lowercase, without those of two bytes or fewer.
pub fn tokenize(input: &str) -> (out: Vec<String>)
    ensures
        texts(out@) == tokenize_spec(input@),
{
    let chars = chars_of(input);
    let mut out: Vec<String> = Vec::new();
    let mut open: Vec<char> = Vec::new();
    let ghost mut done: Seq<Seq<char>> = Seq::empty();
    let mut i: usize = 0;
    assert(texts(out@) == tokens_of_words(done));
    while i < chars.len()
        invariant
            i <= chars.len(),
            scan_words(chars@.take(i as int)) == (done, open@),
            texts(out@) == tokens_of_words(done),
        decreases chars.len() - i,
    {
        assert(chars@.take(i + 1).drop_last() == chars@.take(i as int));
        let c = chars[i];
        if is_alphanumeric(c) {
            open.push(c);
        } else if open.len() > 0 {
            push_token(&mut out, &open, Ghost(done));
            proof {
                done = done.push(open@);
            }
            open = Vec::new();
        }
        i += 1;
    }
    assert(chars@.take(chars.len() as int) == chars@);
    if open.len() > 0 {
        push_token(&mut out, &open, Ghost(done));
    }
    out
}

/// What the memory holds for one token: its category, and how many times it
/// was reinforced.
pub type Bindings = Map<Seq<char>, (Seq<char>, nat)>;

/// One more reinforcement of a count. A count that has reached the largest
/// `u64` stays there.
pub open spec fn bump(hits: nat) -> nat {
    if hits < u64::MAX {
        hits + 1
    } else {
        hits
    }
}

/// The memory after one token was filed under `category`: the token is bound
/// to that category, whatever it was bound to before, and its count is one
/// higher, or 1 if the token is new.
pub open spec fn reinforce(m: Bindings, token: Seq<char>, category: Seq<char>) -> Bindings {
    let hits = if m.contains_key(token) {
        bump(m[token].1)
    } else {
        1
    };
    m.insert(token, (category, hits))
}

/// The memory after every token of `tokens`, in order, was filed under
/// `category`.
pub open spec fn learned(m: Bindings, tokens: Seq<Seq<char>>, category: Seq<char>) -> Bindings
    decreases tokens.len(),
{
    if tokens.len() == 0 {
        m
    } else {
        reinforce(learned(m, tokens.drop_last(), category), tokens.last(), category)
    }
}

/// The category of the first token of `tokens` that the memory knows.
pub open spec fn suggestion(m: Bindings, tokens: Seq<Seq<char>>) -> Option<Seq<char>>
    decreases tokens.len(),
{
    if tokens.len() == 0 {
        None
    } else if m.contains_key(tokens[0]) {
        Some(m[tokens[0]].0)
    } else {
        suggestion(m, tokens.drop_first())
    }
}

/// A suggestion is the binding of the earliest token that has one; there is
/// none exactly when no token has a binding.
pub proof fn lemma_suggestion_is_earliest_binding(m: Bindings, tokens: Seq<Seq<char>>)
    ensures
        match suggestion(m, tokens) {
            Some(category) => exists|i: int|
                0 <= i < tokens.len() && m.contains_key(#[trigger] tokens[i]) && category
                    == m[tokens[i]].0 && forall|j: int|
                    0 <= j < i ==> !m.contains_key(#[trigger] tokens[j]),
            None => forall|i: int| 0 <= i < tokens.len() ==> !m.contains_key(#[trigger] tokens[i]),
        },
    decreases tokens.len(),
{
    if tokens.len() > 0 {
        if m.contains_key(tokens[0]) {
            assert(forall|j: int| 0 <= j < 0 ==> !m.contains_key(#[trigger] tokens[j]));
        } else {
            let rest = tokens.drop_first();
            lemma_suggestion_is_earliest_binding(m, rest);
            match suggestion(m, rest) {
                Some(category) => {
                    let i = choose|i: int|
                        0 <= i < rest.len() && m.contains_key(#[trigger] rest[i]) && category
                            == m[rest[i]].0 && forall|j: int|
                            0 <= j < i ==> !m.contains_key(#[trigger] rest[j]);
                    assert(tokens[i + 1] == rest[i]);
                    assert forall|j: int| 0 <= j < i + 1 implies !m.contains_key(
                        #[trigger] tokens[j],
                    ) by {
                        if j > 0 {
                            assert(tokens[j] == rest[j - 1]);
                        }
                    }
                },
                None => {
                    assert forall|i: int| 0 <= i < tokens.len() implies !m.contains_key(
                        #[trigger] tokens[i],
                    ) by {
                        if i > 0 {
                            assert(tokens[i] == rest[i - 1]);
                        }
                    }
                },
            }
        }
    }
}

/// With the memory fixed, the suggestion for a description depends on its
/// token sequence alone.
pub proof fn lemma_suggestion_depends_on_tokens(m: Bindings, d1: Seq<char>, d2: Seq<char>)
    requires
        tokenize_spec(d1) == tokenize_spec(d2),
    ensures
        suggestion(m, tokenize_spec(d1)) == suggestion(m, tokenize_spec(d2)),
{
}

/// After learning, every token that was learned is bound to the category
/// that was learned, and every other token is bound as before.
pub proof fn lemma_learned_bindings(m: Bindings, tokens: Seq<Seq<char>>, category: Seq<char>)
    ensures
        forall|i: int|
            0 <= i < tokens.len() ==> learned(m, tokens, category).contains_key(
                #[trigger] tokens[i],
            ) && learned(m, tokens, category)[tokens[i]].0 == category,
        forall|t: Seq<char>|
            !tokens.contains(t) ==> learned(m, tokens, category).contains_key(t)
                == m.contains_key(t) && learned(m, tokens, category)[t] == m[t],
    decreases tokens.len(),
{
    if tokens.len() > 0 {
        let front = tokens.drop_last();
        lemma_learned_bindings(m, front, category);
        assert forall|i: int| 0 <= i < tokens.len() implies learned(
            m,
            tokens,
            category,
        ).contains_key(#[trigger] tokens[i]) && learned(m, tokens, category)[tokens[i]].0
            == category by {
            if i < front.len() {
                assert(front[i] == tokens[i]);
            }
        }
        assert forall|t: Seq<char>| !tokens.contains(t) implies learned(
            m,
            tokens,
            category,
        ).contains_key(t) == m.contains_key(t) && learned(m, tokens, category)[t] == m[t] by {
            assert(tokens[tokens.len() - 1] != t);
            if front.contains(t) {
                let k = choose|k: int| 0 <= k < front.len() && front[k] == t;
                assert(tokens[k] == t);
            }
        }
    }
}

/// Learning never lowers a count, and leaves every learned token with a count
/// of at least 1.
pub proof fn lemma_learned_counts(m: Bindings, tokens: Seq<Seq<char>>, category: Seq<char>)
    ensures
        forall|t: Seq<char>|
            m.contains_key(t) ==> #[trigger] learned(m, tokens, category).contains_key(t)
                && learned(m, tokens, category)[t].1 >= m[t].1,
        forall|i: int|
            0 <= i < tokens.len() ==> learned(m, tokens, category)[#[trigger] tokens[i]].1 >= 1,
    decreases tokens.len(),
{
    if tokens.len() > 0 {
        let front = tokens.drop_last();
        lemma_learned_counts(m, front, category);
        lemma_learned_bindings(m, front, category);
        let before = learned(m, front, category);
        assert forall|t: Seq<char>| m.contains_key(t) implies #[trigger] learned(
            m,
            tokens,
            category,
        ).contains_key(t) && learned(m, tokens, category)[t].1 >= m[t].1 by {
            assert(before.contains_key(t));
        }
        assert forall|i: int| 0 <= i < tokens.len() implies learned(
            m,
            tokens,
            category,
        )[#[trigger] tokens[i]].1 >= 1 by {
            if i < front.len() {
                assert(front[i] == tokens[i]);
                assert(before[front[i]].1 >= 1);
            }
        }
    }
}

/// Learning a description makes its category the suggestion for that very
/// description, as soon as the description has a token at all.
pub proof fn lemma_learn_then_suggest(m: Bindings, description: Seq<char>, category: Seq<char>)
    requires
        tokenize_spec(description).len() >= 1,
    ensures
        suggestion(
            learned(m, tokenize_spec(description), category),
            tokenize_spec(description),
        ) == Some(category),
{
    lemma_learned_bindings(m, tokenize_spec(description), category);
    assert(learned(m, tokenize_spec(description), category).contains_key(
        tokenize_spec(description)[0],
    ));
}

/// One token of the memory as it is stored.
#[derive(Clone, Debug)]
pub struct TokenBinding {
    pub token: String,
    pub category: String,
    pub hit_count: u64,
}

/// The bindings that a list of stored tokens amounts to. Where a token
/// occurs twice, the later entry counts. A stored count of 0 is read as 1.
pub open spec fn bindings_of(entries: Seq<TokenBinding>) -> Bindings
    decreases entries.len(),
{
    if entries.len() == 0 {
        Map::empty()
    } else {
        let e = entries.last();
        bindings_of(entries.drop_last()).insert(
            e.token@,
            (
                e.category@,
                if e.hit_count == 0 {
                    1nat
                } else {
                    e.hit_count as nat
                },
            ),
        )
    }
}

/// Whether no token occurs twice in `entries`.
pub open spec fn distinct_tokens(entries: Seq<TokenBinding>) -> bool {
    forall|i: int, j: int|
        0 <= i < j < entries.len() ==> (#[trigger] entries[i]).token@ != (
        #[trigger] entries[j]).token@
}

proof fn lemma_bindings_domain(entries: Seq<TokenBinding>, t: Seq<char>)
    ensures
        bindings_of(entries).contains_key(t) <==> exists|i: int|
            0 <= i < entries.len() && (#[trigger] entries[i]).token@ == t,
    decreases entries.len(),
{
    if entries.len() > 0 {
        let front = entries.drop_last();
        lemma_bindings_domain(front, t);
        if bindings_of(entries).contains_key(t) {
            if entries.last().token@ == t {
                assert(entries[entries.len() - 1].token@ == t);
            } else {
                let i = choose|i: int| 0 <= i < front.len() && (#[trigger] front[i]).token@ == t;
                assert(entries[i].token@ == t);
            }
        }
        if exists|i: int| 0 <= i < entries.len() && (#[trigger] entries[i]).token@ == t {
            let i = choose|i: int| 0 <= i < entries.len() && (#[trigger] entries[i]).token@ == t;
            if i < front.len() {
                assert(front[i].token@ == t);
            }
        }
    }
}

proof fn lemma_bindings_lookup(entries: Seq<TokenBinding>, i: int)
    requires
        distinct_tokens(entries),
        0 <= i < entries.len(),
        entries[i].hit_count >= 1,
    ensures
        bindings_of(entries).contains_key(entries[i].token@),
        bindings_of(entries)[entries[i].token@] == (
            entries[i].category@,
            entries[i].hit_count as nat,
        ),
    decreases entries.len(),
{
    let front = entries.drop_last();
    if i < entries.len() - 1 {
        assert(front[i] == entries[i]);
        assert(entries[i].token@ != entries[entries.len() - 1].token@);
        lemma_bindings_lookup(front, i);
    }
}

proof fn lemma_bindings_update(entries: Seq<TokenBinding>, i: int, e: TokenBinding)
    requires
        distinct_tokens(entries),
        0 <= i < entries.len(),
        e.token@ == entries[i].token@,
        e.hit_count >= 1,
    ensures
        distinct_tokens(entries.update(i, e)),
        bindings_of(entries.update(i, e)) == bindings_of(entries).insert(
            e.token@,
            (e.category@, e.hit_count as nat),
        ),
    decreases entries.len(),
{
    let after = entries.update(i, e);
    assert forall|a: int, b: int| 0 <= a < b < after.len() implies (#[trigger] after[a]).token@
        != (#[trigger] after[b]).token@ by {
        assert(after[a].token@ == entries[a].token@);
        assert(after[b].token@ == entries[b].token@);
    }
    let front = entries.drop_last();
    if i == entries.len() - 1 {
        assert(after.drop_last() == front);
        assert(bindings_of(after) == bindings_of(entries).insert(
            e.token@,
            (e.category@, e.hit_count as nat),
        ));
    } else {
        assert(front[i] == entries[i]);
        lemma_bindings_update(front, i, e);
        assert(after.drop_last() == front.update(i, e));
        assert(after.last() == entries.last());
        assert(entries[i].token@ != entries[entries.len() - 1].token@);
        assert(bindings_of(after) == bindings_of(entries).insert(
            e.token@,
            (e.category@, e.hit_count as nat),
        ));
    }
}

/// The token map: one category and one count for every token it has learned.
#[derive(Debug, Clone)]
pub struct CategorizationMemory {
    tokens: Vec<TokenBinding>,
}

impl View for CategorizationMemory {
    type V = Bindings;

    closed spec fn view(&self) -> Bindings {
        bindings_of(self.tokens@)
    }
}

impl CategorizationMemory {
    /// The invariant of the memory: no token is stored twice, and every
    /// stored count is at least 1.
    pub closed spec fn wf(self) -> bool {
        &&& distinct_tokens(self.tokens@)
        &&& forall|i: int| 0 <= i < self.tokens@.len() ==> (#[trigger] self.tokens@[i]).hit_count >= 1
    }

    /// A memory that knows no token.
    pub fn new() -> (memory: Self)
        ensures
            memory.wf(),
            memory@ == Map::<Seq<char>, (Seq<char>, nat)>::empty(),
    {
        CategorizationMemory { tokens: Vec::new() }
    }

    /// Every count of a memory is at least 1.
    pub proof fn lemma_counts_positive(self, token: Seq<char>)
        requires
            self.wf(),
            self@.contains_key(token),
        ensures
            1 <= self@[token].1 <= u64::MAX,
    {
        lemma_bindings_domain(self.tokens@, token);
        let i = choose|i: int|
            0 <= i < self.tokens@.len() && (#[trigger] self.tokens@[i]).token@ == token;
        lemma_bindings_lookup(self.tokens@, i);
    }

    /// Where `token` is stored, if it is.
    fn position(&self, token: &String) -> (at: Option<usize>)
        requires
            self.wf(),
        ensures
            match at {
                Some(i) => i < self.tokens@.len() && self.tokens@[i as int].token@ == token@
                    && self@.contains_key(token@) && self@[token@] == (
                    self.tokens@[i as int].category@,
                    self.tokens@[i as int].hit_count as nat,
                ),
                None => !self@.contains_key(token@),
            },
    {
        let mut i: usize = 0;
        while i < self.tokens.len()
            invariant
                self.wf(),
                i <= self.tokens@.len(),
                forall|j: int| 0 <= j < i ==> (#[trigger] self.tokens@[j]).token@ != token@,
            decreases self.tokens.len() - i,
        {
            if self.tokens[i].token == *token {
                proof {
                    lemma_bindings_lookup(self.tokens@, i as int);
                }
                return Some(i);
            }
            i += 1;
        }
        proof {
            lemma_bindings_domain(self.tokens@, token@);
        }
        None
    }

    /// Binds one token to `category` and counts the reinforcement.
    fn reinforce_token(&mut self, token: &String, category: &str)
        requires
            old(self).wf(),
        ensures
            final(self).wf(),
            final(self)@ == reinforce(old(self)@, token@, category@),
    {
        match self.position(token) {
            Some(i) => {
                let hits = self.tokens[i].hit_count;
                let entry = TokenBinding {
                    token: token.clone(),
                    category: category.to_owned(),
                    hit_count: if hits < u64::MAX {
                        hits + 1
                    } else {
                        hits
                    },
                };
                proof {
                    lemma_bindings_update(self.tokens@, i as int, entry);
                }
                self.tokens.set(i, entry);
            },
            None => {
                let entry = TokenBinding {
                    token: token.clone(),
                    category: category.to_owned(),
                    hit_count: 1,
                };
                proof {
                    lemma_bindings_domain(self.tokens@, token@);
                    assert(self.tokens@.push(entry).drop_last() == self.tokens@);
                }
                self.tokens.push(entry);
            },
        }
    }

    /// Builds the memory from the tokens as they were stored. Of two entries
    /// for one token the later counts; a stored count of 0 is read as 1.
    pub fn load(rows: Vec<TokenBinding>) -> (memory: Self)
        ensures
            memory.wf(),
            memory@ == bindings_of(rows@),
    {
        let mut memory = CategorizationMemory::new();
        let mut k: usize = 0;
        assert(rows@.take(0) == Seq::<TokenBinding>::empty());
        while k < rows.len()
            invariant
                k <= rows.len(),
                memory.wf(),
                memory@ == bindings_of(rows@.take(k as int)),
            decreases rows.len() - k,
        {
            assert(rows@.take(k + 1).drop_last() == rows@.take(k as int));
            let row = &rows[k];
            let entry = TokenBinding {
                token: row.token.clone(),
                category: row.category.clone(),
                hit_count: if row.hit_count == 0 {
                    1
                } else {
                    row.hit_count
                },
            };
            match memory.position(&row.token) {
                Some(i) => {
                    proof {
                        lemma_bindings_update(memory.tokens@, i as int, entry);
                    }
                    memory.tokens.set(i, entry);
                },
                None => {
                    proof {
                        lemma_bindings_domain(memory.tokens@, row.token@);
                        assert(memory.tokens@.push(entry).drop_last() == memory.tokens@);
                    }
                    memory.tokens.push(entry);
                },
            }
            k += 1;
        }
        assert(rows@.take(rows.len() as int) == rows@);
        memory
    }

    /// The category of the first token of `description` that the memory
    /// knows, if it knows any.
    pub fn suggest(&self, description: &str) -> (r: Option<String>)
        requires
            self.wf(),
        ensures
            match r {
                Some(category) => suggestion(self@, tokenize_spec(description@)) == Some(
                    category@,
                ),
                None => suggestion(self@, tokenize_spec(description@)) is None,
            },
    {
        let tokens = tokenize(description);
        let ghost all = texts(tokens@);
        let mut k: usize = 0;
        assert(all.skip(0) == all);
        while k < tokens.len()
            invariant
                k <= tokens.len(),
                self.wf(),
                all == texts(tokens@),
                all == tokenize_spec(description@),
                suggestion(self@, all) == suggestion(self@, all.skip(k as int)),
            decreases tokens.len() - k,
        {
            assert(all.skip(k as int).drop_first() == all.skip(k + 1));
            assert(all.skip(k as int)[0] == tokens@[k as int]@);
            match self.position(&tokens[k]) {
                Some(i) => {
                    return Some(self.tokens[i].category.clone());
                },
                None => {},
            }
            k += 1;
        }
        None
    }

    /// Files every token of `description` under `category`: the token is
    /// bound to it, whatever it was bound to before, and its count goes up
    /// by one.
    pub fn learn(&mut self, description: &str, category: &str)
        requires
            old(self).wf(),
        ensures
            final(self).wf(),
            final(self)@ == learned(old(self)@, tokenize_spec(description@), category@),
    {
        let tokens = tokenize(description);
        let ghost all = texts(tokens@);
        let mut k: usize = 0;
        assert(all.take(0) == Seq::<Seq<char>>::empty());
        while k < tokens.len()
            invariant
                k <= tokens.len(),
                self.wf(),
                all == texts(tokens@),
                self@ == learned(old(self)@, all.take(k as int), category@),
            decreases tokens.len() - k,
        {
            assert(all.take(k + 1).drop_last() == all.take(k as int));
            assert(all.take(k + 1).last() == tokens@[k as int]@);
            self.reinforce_token(&tokens[k], category);
            k += 1;
        }
        assert(all.take(tokens.len() as int) == all);
    }

    /// How many times `token` was reinforced; 0 for a token that the memory
    /// does not know.
    pub fn hit_count(&self, token: &str) -> (hits: u64)
        requires
            self.wf(),
        ensures
            hits == if self@.contains_key(token@) {
                self@[token@].1
            } else {
                0
            },
    {
        let owned = token.to_owned();
        match self.position(&owned) {
            Some(i) => self.tokens[i].hit_count,
            None => 0,
        }
    }

    /// The number of tokens that the memory knows.
    pub fn len(&self) -> (n: usize)
        requires
            self.wf(),
        ensures
            n == self@.dom().len(),
            self@.dom().finite(),
    {
        proof {
            lemma_bindings_len(self.tokens@);
        }
        self.tokens.len()
    }
}

proof fn lemma_bindings_len(entries: Seq<TokenBinding>)
    requires
        distinct_tokens(entries),
    ensures
        bindings_of(entries).dom().finite(),
        bindings_of(entries).dom().len() == entries.len(),
    decreases entries.len(),
{
    if entries.len() > 0 {
        let front = entries.drop_last();
        lemma_bindings_len(front);
        lemma_bindings_domain(front, entries.last().token@);
        if bindings_of(front).contains_key(entries.last().token@) {
            let i = choose|i: int|
                0 <= i < front.len() && (#[trigger] front[i]).token@ == entries.last().token@;
            assert(entries[i] == front[i]);
            assert(entries[entries.len() - 1] == entries.last());
        }
    } else {
        assert(bindings_of(entries).dom() =~= Set::<Seq<char>>::empty());
    }
}

impl Default for CategorizationMemory {
    fn default() -> (memory: Self)
        ensures
            memory.wf(),
            memory@ == Map::<Seq<char>, (Seq<char>, nat)>::empty(),
    {
        CategorizationMemory::new()
    }
}

} // verus!
