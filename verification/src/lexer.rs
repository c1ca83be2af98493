//! The tokenizer: scans text left to right, discards maximal runs of
//! non-alphanumeric characters as separators, and emits each maximal run of
//! alphanumeric characters as one lower-cased token.

use vstd::prelude::*;

verus! {

/// Whether the platform's character classification marks `c` as alphanumeric.
/// This names the result of `char::is_alphanumeric`, a pure function of the
/// character alone.
pub uninterp spec fn is_alnum(c: char) -> bool;

/// The lower-casing of a character sequence. This names the result of
/// `str::to_lowercase`, a pure function of the characters alone.
pub uninterp spec fn lower_of(s: Seq<char>) -> Seq<char>;

/// Relies on `char::is_alphanumeric`: a pure Unicode classification of the
/// character, the same for the same character on every call.
pub assume_specification[ char::is_alphanumeric ](c: char) -> (r: bool)
    ensures
        r == is_alnum(c),
;

/// Relies on `str::to_lowercase`: the result depends on the characters alone;
/// every character maps to at least one character, so the result is empty
/// exactly when the input is.
pub assume_specification[ str::to_lowercase ](s: &str) -> (r: String)
    ensures
        r@ == lower_of(s@),
        (r@.len() == 0) == (s@.len() == 0),
;

/// Length of the maximal separator (non-alphanumeric) prefix of `s`.
pub open spec fn sep_len(s: Seq<char>) -> nat
    decreases s.len(),
{
    if s.len() > 0 && !is_alnum(s[0]) {
        (1 + sep_len(s.drop_first())) as nat
    } else {
        0
    }
}

/// Length of the maximal alphanumeric prefix of `s`.
pub open spec fn run_len(s: Seq<char>) -> nat
    decreases s.len(),
{
    if s.len() > 0 && is_alnum(s[0]) {
        (1 + run_len(s.drop_first())) as nat
    } else {
        0
    }
}

/// The maximal alphanumeric runs of `s`, in order, before lower-casing.
pub open spec fn raw_tokens(s: Seq<char>) -> Seq<Seq<char>>
    decreases s.len(),
    via raw_tokens_dec
{
    if s.len() == 0 {
        Seq::empty()
    } else if !is_alnum(s[0]) {
        raw_tokens(s.drop_first())
    } else {
        seq![s.take(run_len(s) as int)] + raw_tokens(s.skip(run_len(s) as int))
    }
}

#[via_fn]
proof fn raw_tokens_dec(s: Seq<char>) {
    if s.len() > 0 && is_alnum(s[0]) {
        lemma_run_len_le(s);
    }
}

/// The token stream of `s`: its alphanumeric runs, each lower-cased.
pub open spec fn lex(s: Seq<char>) -> Seq<Seq<char>> {
    raw_tokens(s).map_values(|t: Seq<char>| lower_of(t))
}

proof fn lemma_run_len_le(s: Seq<char>)
    ensures
        run_len(s) <= s.len(),
    decreases s.len(),
{
    if s.len() > 0 && is_alnum(s[0]) {
        lemma_run_len_le(s.drop_first());
    }
}

proof fn lemma_sep_len_le(s: Seq<char>)
    ensures
        sep_len(s) <= s.len(),
    decreases s.len(),
{
    if s.len() > 0 && !is_alnum(s[0]) {
        lemma_sep_len_le(s.drop_first());
    }
}

/// Characterization of `run_len`: all characters before it are alphanumeric,
/// and the character at it (if any) is not.
proof fn lemma_run_len_chars(s: Seq<char>)
    ensures
        run_len(s) <= s.len(),
        forall|k: int| 0 <= k < run_len(s) ==> is_alnum(s[k]),
        run_len(s) < s.len() ==> !is_alnum(s[run_len(s) as int]),
    decreases s.len(),
{
    lemma_run_len_le(s);
    if s.len() > 0 && is_alnum(s[0]) {
        lemma_run_len_chars(s.drop_first());
        assert forall|k: int| 0 <= k < run_len(s) implies is_alnum(s[k]) by {
            if k > 0 {
                assert(is_alnum(s.drop_first()[k - 1]));
            }
        }
    }
}

/// Characterization of `sep_len`: all characters before it are separators,
/// and the character at it (if any) is alphanumeric.
proof fn lemma_sep_len_chars(s: Seq<char>)
    ensures
        sep_len(s) <= s.len(),
        forall|k: int| 0 <= k < sep_len(s) ==> !is_alnum(s[k]),
        sep_len(s) < s.len() ==> is_alnum(s[sep_len(s) as int]),
    decreases s.len(),
{
    lemma_sep_len_le(s);
    if s.len() > 0 && !is_alnum(s[0]) {
        lemma_sep_len_chars(s.drop_first());
        assert forall|k: int| 0 <= k < sep_len(s) implies !is_alnum(s[k]) by {
            if k > 0 {
                assert(!is_alnum(s.drop_first()[k - 1]));
            }
        }
    }
}

/// `run_len` is the unique boundary with alphanumeric characters before it and
/// a separator (or the end) at it.
proof fn lemma_run_len_is(s: Seq<char>, j: int)
    requires
        0 <= j <= s.len(),
        forall|k: int| 0 <= k < j ==> is_alnum(s[k]),
        j == s.len() || !is_alnum(s[j]),
    ensures
        run_len(s) == j,
    decreases s.len(),
{
    if s.len() > 0 && is_alnum(s[0]) {
        let d = s.drop_first();
        assert forall|k: int| 0 <= k < j - 1 implies is_alnum(d[k]) by {
            assert(is_alnum(s[k + 1]));
        }
        lemma_run_len_is(d, j - 1);
    }
}

/// `sep_len` is the unique boundary with separators before it and an
/// alphanumeric character (or the end) at it.
proof fn lemma_sep_len_is(s: Seq<char>, j: int)
    requires
        0 <= j <= s.len(),
        forall|k: int| 0 <= k < j ==> !is_alnum(s[k]),
        j == s.len() || is_alnum(s[j]),
    ensures
        sep_len(s) == j,
    decreases s.len(),
{
    if s.len() > 0 && !is_alnum(s[0]) {
        let d = s.drop_first();
        assert forall|k: int| 0 <= k < j - 1 implies !is_alnum(d[k]) by {
            assert(!is_alnum(s[k + 1]));
        }
        lemma_sep_len_is(d, j - 1);
    }
}

/// Dropping the maximal separator prefix leaves the raw tokens unchanged.
proof fn lemma_raw_tokens_skip_sep(s: Seq<char>)
    ensures
        sep_len(s) <= s.len(),
        raw_tokens(s) == raw_tokens(s.skip(sep_len(s) as int)),
    decreases s.len(),
{
    lemma_sep_len_le(s);
    if s.len() > 0 && !is_alnum(s[0]) {
        lemma_raw_tokens_skip_sep(s.drop_first());
        assert(s.skip(sep_len(s) as int) =~= s.drop_first().skip(sep_len(s.drop_first()) as int));
    } else {
        assert(s.skip(0) =~= s);
    }
}

/// Whether every character of `s` is a separator (not alphanumeric).
pub open spec fn all_sep(s: Seq<char>) -> bool {
    forall|k: int| 0 <= k < s.len() ==> !is_alnum(s[k])
}

/// A well-formed segment of the partition of a text: a (possibly empty)
/// separator run followed by a non-empty alphanumeric run.
pub open spec fn seg_wf(p: (Seq<char>, Seq<char>)) -> bool {
    &&& all_sep(p.0)
    &&& p.1.len() > 0
    &&& forall|k: int| 0 <= k < p.1.len() ==> is_alnum(p.1[k])
}

/// The partition of `s` into (separator run, token run) segments, in order;
/// what remains after the last token run is `trailing_sep(s)`.
pub open spec fn segments(s: Seq<char>) -> Seq<(Seq<char>, Seq<char>)>
    decreases s.len(),
    via segments_dec
{
    if sep_len(s) == s.len() {
        Seq::empty()
    } else {
        let p = sep_len(s) as int;
        let q = run_len(s.skip(p)) as int;
        seq![(s.take(p), s.skip(p).take(q))] + segments(s.skip(p).skip(q))
    }
}

#[via_fn]
proof fn segments_dec(s: Seq<char>) {
    lemma_segment_bounds(s);
}

/// The separator run after the last token of `s` (all of `s` if it has no
/// token).
pub open spec fn trailing_sep(s: Seq<char>) -> Seq<char>
    decreases s.len(),
    via trailing_sep_dec
{
    if sep_len(s) == s.len() {
        s
    } else {
        let p = sep_len(s) as int;
        let q = run_len(s.skip(p)) as int;
        trailing_sep(s.skip(p).skip(q))
    }
}

#[via_fn]
proof fn trailing_sep_dec(s: Seq<char>) {
    lemma_segment_bounds(s);
}

proof fn lemma_segment_bounds(s: Seq<char>)
    ensures
        sep_len(s) <= s.len(),
        sep_len(s) < s.len() ==> 1 <= run_len(s.skip(sep_len(s) as int)) <= s.len() - sep_len(s),
{
    lemma_sep_len_chars(s);
    if sep_len(s) < s.len() {
        let u = s.skip(sep_len(s) as int);
        lemma_run_len_le(u);
        assert(u[0] == s[sep_len(s) as int]);
    }
}

/// Concatenation of the segments of a partition, in order.
pub open spec fn glue(ps: Seq<(Seq<char>, Seq<char>)>) -> Seq<char>
    decreases ps.len(),
{
    if ps.len() == 0 {
        Seq::empty()
    } else {
        ps[0].0 + ps[0].1 + glue(ps.drop_first())
    }
}

/// The tokenizer partitions its input: the discarded separator runs and the
/// emitted token runs, interleaved in order and followed by the trailing
/// separator run, reconstruct the input exactly; each token run is a
/// non-empty, all-alphanumeric segment, and the token stream is exactly those
/// runs lower-cased.
pub proof fn lemma_lex_partition(s: Seq<char>)
    ensures
        glue(segments(s)) + trailing_sep(s) == s,
        segments(s).map_values(|p: (Seq<char>, Seq<char>)| p.1) == raw_tokens(s),
        forall|i: int| 0 <= i < segments(s).len() ==> seg_wf(#[trigger] segments(s)[i]),
        all_sep(trailing_sep(s)),
        lex(s) == segments(s).map_values(|p: (Seq<char>, Seq<char>)| lower_of(p.1)),
    decreases s.len(),
{
    lemma_segment_bounds(s);
    lemma_sep_len_chars(s);
    let f1 = |p: (Seq<char>, Seq<char>)| p.1;
    if sep_len(s) == s.len() {
        lemma_raw_tokens_skip_sep(s);
        assert(s.skip(s.len() as int) =~= Seq::<char>::empty());
        assert(raw_tokens(Seq::<char>::empty()) =~= Seq::<Seq<char>>::empty());
        assert(glue(segments(s)) + trailing_sep(s) =~= s);
        assert(segments(s).map_values(f1) =~= raw_tokens(s));
        assert(lex(s) =~= segments(s).map_values(|p: (Seq<char>, Seq<char>)| lower_of(p.1)));
    } else {
        let p = sep_len(s) as int;
        let u = s.skip(p);
        let q = run_len(u) as int;
        let rest = u.skip(q);
        let head = (s.take(p), u.take(q));
        lemma_run_len_chars(u);
        lemma_lex_partition(rest);
        // The head segment is well-formed.
        assert forall|k: int| 0 <= k < head.0.len() implies !is_alnum(head.0[k]) by {
            assert(head.0[k] == s[k]);
        }
        assert(seg_wf(head));
        // Unfold `glue` over the cons.
        assert(segments(s) == seq![head] + segments(rest));
        assert((seq![head] + segments(rest)).drop_first() =~= segments(rest));
        assert(glue(segments(s)) == head.0 + head.1 + glue(segments(rest)));
        // Reassemble the text.
        let g = glue(segments(rest));
        let t = trailing_sep(rest);
        assert(trailing_sep(s) == t);
        assert(g + t == rest);
        assert((head.0 + head.1) + rest =~= s);
        assert(glue(segments(s)) + trailing_sep(s) =~= (head.0 + head.1) + (g + t));
        assert(glue(segments(s)) + trailing_sep(s) == s);
        // The token runs are exactly the raw tokens.
        lemma_raw_tokens_skip_sep(s);
        assert(raw_tokens(u) == seq![u.take(run_len(u) as int)] + raw_tokens(
            u.skip(run_len(u) as int),
        ));
        assert(segments(s).map_values(f1) =~= raw_tokens(s));
        // Each segment is well-formed.
        assert forall|i: int| 0 <= i < segments(s).len() implies seg_wf(
            #[trigger] segments(s)[i],
        ) by {
            if i > 0 {
                assert(segments(s)[i] == segments(rest)[i - 1]);
            }
        }
        assert(lex(s) =~= segments(s).map_values(|pr: (Seq<char>, Seq<char>)| lower_of(pr.1)));
    }
}

/// The tokenizer. It holds the text still to be scanned and a flag that marks
/// an exhausted stream; each `next_token` call yields the next lower-cased
/// alphanumeric run, or `None` once the text is exhausted.
pub struct Lexer<'a> {
    content: &'a str,
    reached_end: bool,
}

impl<'a> Lexer<'a> {
    /// The text still to be scanned.
    pub closed spec fn pending(self) -> Seq<char> {
        self.content@
    }

    /// Whether the stream has reported its end.
    pub closed spec fn done(self) -> bool {
        self.reached_end
    }

    /// The tokens this lexer will still produce.
    pub open spec fn tokens_left(self) -> Seq<Seq<char>> {
        if self.done() {
            Seq::empty()
        } else {
            lex(self.pending())
        }
    }

    /// Construct a new Lexer
    ///
    /// * `content`: Text to tokenize
    pub fn new(content: &'a str) -> (r: Self)
        ensures
            r.pending() == content@,
            !r.done(),
            r.tokens_left() == lex(content@),
    {
        Self { content, reached_end: false }
    }

    /// skip ignored characters
    fn skip_chars(&mut self)
        ensures
            final(self).pending() == old(self).pending().skip(
                sep_len(old(self).pending()) as int,
            ),
            final(self).done() == old(self).done(),
    {
        let n = self.content.unicode_len();
        let mut i: usize = 0;
        while i < n && !self.content.get_char(i).is_alphanumeric()
            invariant
                i <= n,
                n == self.content@.len(),
                self.content == old(self).content,
                self.reached_end == old(self).reached_end,
                forall|k: int| 0 <= k < i ==> !is_alnum(self.content@[k]),
            decreases n - i,
        {
            i += 1;
        }
        proof {
            lemma_sep_len_is(self.content@, i as int);
        }
        let rest = self.content.substring_char(i, n);
        self.content = rest;
    }

    /// output next token. outputs None if end of token stream is reached
    pub fn next_token(&mut self) -> (r: Option<String>)
        ensures
            match r {
                None => {
                    &&& old(self).tokens_left() == Seq::<Seq<char>>::empty()
                    &&& final(self).tokens_left() == Seq::<Seq<char>>::empty()
                    &&& final(self).done()
                },
                Some(t) => {
                    &&& old(self).tokens_left().len() > 0
                    &&& t@ == old(self).tokens_left()[0]
                    &&& t@.len() > 0
                    &&& final(self).tokens_left() == old(self).tokens_left().drop_first()
                },
            },
    {
        if self.reached_end {
            return None;
        }
        let ghost s0 = self.content@;
        self.skip_chars();
        proof {
            lemma_raw_tokens_skip_sep(s0);
            lemma_sep_len_chars(s0);
        }
        let ghost s = self.content@;
        let n = self.content.unicode_len();
        let mut i: usize = 0;
        while i < n && self.content.get_char(i).is_alphanumeric()
            invariant
                i <= n,
                n == self.content@.len(),
                self.content@ == s,
                self.reached_end == old(self).reached_end,
                forall|k: int| 0 <= k < i ==> is_alnum(self.content@[k]),
            decreases n - i,
        {
            i += 1;
        }
        proof {
            lemma_run_len_is(s, i as int);
            // After skipping separators, a non-empty remainder starts with an
            // alphanumeric character, so the run is empty only at the end.
            lemma_sep_len_is(s0.skip(sep_len(s0) as int), 0);
            assert(sep_len(s) == 0);
        }
        let tok = self.content.substring_char(0, i);
        let rest = self.content.substring_char(i, n);
        proof {
            assert(tok@ == s.take(i as int));
            assert(rest@ == s.skip(i as int));
        }
        if rest.is_empty() {
            self.reached_end = true;
            if i == 0 {
                proof {
                    assert(s.len() == 0);
                    assert(raw_tokens(s) =~= Seq::<Seq<char>>::empty());
                }
                self.content = rest;
                return None;
            }
        }
        self.content = rest;
        let lowered = tok.to_lowercase();
        proof {
            assert(s.len() > 0 && is_alnum(s[0]));
            assert(raw_tokens(s) == seq![s.take(run_len(s) as int)] + raw_tokens(
                s.skip(run_len(s) as int),
            ));
            assert(raw_tokens(s)[0] == tok@);
            assert(lex(s0)[0] == lower_of(tok@));
            assert(raw_tokens(s).drop_first() =~= raw_tokens(rest@));
            assert(lex(s0).drop_first() =~= lex(rest@));
            if rest@.len() == 0 {
                assert(raw_tokens(rest@) =~= Seq::<Seq<char>>::empty());
                assert(lex(rest@) =~= Seq::<Seq<char>>::empty());
            }
        }
        Some(lowered)
    }

    /// Produce the whole token stream at once, in order.
    ///
    /// Every produced token is non-empty; the stream is the lower-casing of
    /// the maximal alphanumeric runs of the pending text.
    pub fn tokens(&mut self) -> (r: Vec<String>)
        ensures
            r@.map_values(|t: String| t@) == old(self).tokens_left(),
            forall|i: int| 0 <= i < r@.len() ==> r@[i]@.len() > 0,
            final(self).tokens_left() == Seq::<Seq<char>>::empty(),
    {
        let mut out: Vec<String> = Vec::new();
        loop
            invariant
                out@.map_values(|t: String| t@) + self.tokens_left() == old(self).tokens_left(),
                forall|i: int| 0 <= i < out@.len() ==> out@[i]@.len() > 0,
            ensures
                out@.map_values(|t: String| t@) == old(self).tokens_left(),
                forall|i: int| 0 <= i < out@.len() ==> out@[i]@.len() > 0,
                self.tokens_left() == Seq::<Seq<char>>::empty(),
            decreases self.tokens_left().len(),
        {
            let ghost prev = self.tokens_left();
            let ghost prev_out = out@;
            match self.next_token() {
                Some(t) => {
                    let ghost tv = t@;
                    out.push(t);
                    proof {
                        assert(out@ =~= prev_out.push(out@[out@.len() - 1]));
                        assert(out@.map_values(|t: String| t@) =~= prev_out.map_values(
                            |t: String| t@,
                        ).push(tv));
                        assert(out@.map_values(|t: String| t@) + self.tokens_left()
                            =~= old(self).tokens_left());
                    }
                },
                None => {
                    proof {
                        assert(out@.map_values(|t: String| t@) + self.tokens_left()
                            =~= out@.map_values(|t: String| t@));
                    }
                    break ;
                },
            }
        }
        out
    }
}

} // verus!
