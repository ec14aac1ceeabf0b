//! The tokenizer: a pushback character stream together with the two-state
//! lexical state machine that drives it.

use crate::token::LexError;
use crate::token::LexState;
use crate::token::Token;
use crate::token::TokenV;
use crate::token::is_id;
use crate::token::is_id_char;
use vstd::prelude::*;
use vstd::string::StrSliceExecFns;

verus! {

// ---------------------------------------------------------------------------
// The specification model: what one request for a token does, stated as pure
// functions over character sequences.
// ---------------------------------------------------------------------------

/// Does `p` stand at the front of `s`?
pub open spec fn has_prefix(s: Seq<char>, p: Seq<char>) -> bool {
    p.len() <= s.len() && s.take(p.len() as int) == p
}

/// The number of characters of `s` before the first occurrence of `d`, or
/// the whole length of `s` when `d` does not occur in it.
pub open spec fn text_len(s: Seq<char>, d: Seq<char>) -> nat
    recommends
        d.len() > 0,
    decreases s.len(),
{
    if s.len() == 0 {
        0
    } else if has_prefix(s, d) {
        0
    } else {
        (1 + text_len(s.skip(1), d)) as nat
    }
}

/// The length of the longest prefix of `s` whose characters all satisfy `p`.
pub open spec fn run_len(s: Seq<char>, p: spec_fn(char) -> bool) -> nat
    decreases s.len(),
{
    if s.len() > 0 && p(s[0]) {
        (1 + run_len(s.skip(1), p)) as nat
    } else {
        0
    }
}

/// The length of the longest prefix of `s` made of plain spaces.
pub open spec fn space_run(s: Seq<char>) -> nat
    decreases s.len(),
{
    if s.len() > 0 && s[0] == ' ' {
        (1 + space_run(s.skip(1))) as nat
    } else {
        0
    }
}

/// The length of the longest prefix of `s` made of identifier characters.
pub open spec fn id_run(s: Seq<char>) -> nat
    decreases s.len(),
{
    if s.len() > 0 && is_id_char(s[0]) {
        (1 + id_run(s.skip(1))) as nat
    } else {
        0
    }
}

/// One step of the lexical state machine: from the remaining input, the
/// current state and the two delimiters, to the token produced (if any), the
/// input left over, and the next state.
///
/// Outside a tag, the open delimiter is recognized first; otherwise the text
/// up to its first occurrence (or all of the input) becomes one `Text` token.
/// Inside a tag, leading spaces are discarded, then the four single-character
/// markers, the close delimiter, and an identifier run are tried in this
/// fixed order; when none applies, no token is produced.
pub open spec fn token_step(rem: Seq<char>, st: LexState, lm: Seq<char>, rm: Seq<char>) -> (Option<
    TokenV,
>, Seq<char>, LexState) {
    match st {
        LexState::Normal => {
            if has_prefix(rem, lm) {
                (Some(TokenV::LMustache), rem.skip(lm.len() as int), LexState::InTag)
            } else if text_len(rem, lm) > 0 {
                (
                    Some(TokenV::Text(rem.take(text_len(rem, lm) as int))),
                    rem.skip(text_len(rem, lm) as int),
                    LexState::Normal,
                )
            } else {
                (None, rem, LexState::Normal)
            }
        },
        LexState::InTag => {
            let r = rem.skip(space_run(rem) as int);
            if has_prefix(r, seq!['#']) {
                (Some(TokenV::Pound), r.skip(1), LexState::InTag)
            } else if has_prefix(r, seq!['&']) {
                (Some(TokenV::UnescapeTag), r.skip(1), LexState::InTag)
            } else if has_prefix(r, seq!['/']) {
                (Some(TokenV::Slash), r.skip(1), LexState::InTag)
            } else if has_prefix(r, seq!['^']) {
                (Some(TokenV::Hat), r.skip(1), LexState::InTag)
            } else if has_prefix(r, rm) {
                (Some(TokenV::RMustache), r.skip(rm.len() as int), LexState::Normal)
            } else if id_run(r) > 0 {
                (Some(TokenV::Id(r.take(id_run(r) as int))), r.skip(id_run(r) as int), LexState::InTag)
            } else {
                (None, r, LexState::InTag)
            }
        },
    }
}

/// All tokens produced from `rem` onward: the step function iterated until
/// it yields none.
pub open spec fn tokens_from(rem: Seq<char>, st: LexState, lm: Seq<char>, rm: Seq<char>) -> Seq<
    TokenV,
>
    decreases rem.len(),
{
    let (t, rest, st2) = token_step(rem, st, lm, rm);
    if t is Some {
        if rest.len() < rem.len() {
            seq![t->0] + tokens_from(rest, st2, lm, rm)
        } else {
            seq![t->0]
        }
    } else {
        Seq::empty()
    }
}

// ---------------------------------------------------------------------------
// Lemmas characterizing the model functions.
// ---------------------------------------------------------------------------

/// `d` occurs in `s` beginning at position `p`.
pub open spec fn occurs_at(s: Seq<char>, d: Seq<char>, p: int) -> bool {
    0 <= p && p + d.len() <= s.len() && s.subrange(p, p + d.len() as int) == d
}

proof fn lemma_text_len_le(s: Seq<char>, d: Seq<char>)
    ensures
        text_len(s, d) <= s.len(),
    decreases s.len(),
{
    if s.len() > 0 && !has_prefix(s, d) {
        lemma_text_len_le(s.skip(1), d);
    }
}

/// When `d` occurs at `p` and nowhere earlier, the text before its first
/// occurrence is exactly the first `p` characters.
proof fn lemma_text_len_found(s: Seq<char>, d: Seq<char>, p: int)
    requires
        d.len() > 0,
        occurs_at(s, d, p),
        forall|q: int| 0 <= q < p ==> !occurs_at(s, d, q),
    ensures
        text_len(s, d) == p,
    decreases s.len(),
{
    if p == 0 {
        assert(s.take(d.len() as int) =~= s.subrange(0, d.len() as int));
    } else {
        assert(!occurs_at(s, d, 0));
        if has_prefix(s, d) {
            assert(s.subrange(0, d.len() as int) =~= s.take(d.len() as int));
            assert(false);
        }
        assert(occurs_at(s.skip(1), d, p - 1)) by {
            assert(s.skip(1).subrange(p - 1, p - 1 + d.len() as int) =~= s.subrange(
                p,
                p + d.len() as int,
            ));
        }
        assert forall|q: int| 0 <= q < p - 1 implies !occurs_at(s.skip(1), d, q) by {
            if occurs_at(s.skip(1), d, q) {
                assert(s.subrange(q + 1, q + 1 + d.len() as int) =~= s.skip(1).subrange(
                    q,
                    q + d.len() as int,
                ));
                assert(occurs_at(s, d, q + 1));
            }
        }
        lemma_text_len_found(s.skip(1), d, p - 1);
    }
}

/// When `d` occurs nowhere in `s`, everything up to the end of the input is
/// text.
proof fn lemma_text_len_none(s: Seq<char>, d: Seq<char>)
    requires
        d.len() > 0,
        forall|q: int| !occurs_at(s, d, q),
    ensures
        text_len(s, d) == s.len(),
    decreases s.len(),
{
    if s.len() > 0 {
        if has_prefix(s, d) {
            assert(s.subrange(0, d.len() as int) =~= s.take(d.len() as int));
            assert(occurs_at(s, d, 0));
            assert(false);
        }
        assert forall|q: int| !occurs_at(s.skip(1), d, q) by {
            if occurs_at(s.skip(1), d, q) {
                assert(s.subrange(q + 1, q + 1 + d.len() as int) =~= s.skip(1).subrange(
                    q,
                    q + d.len() as int,
                ));
                assert(occurs_at(s, d, q + 1));
            }
        }
        lemma_text_len_none(s.skip(1), d);
    }
}

/// When the first `k` characters satisfy `p` and the next one (if any) does
/// not, the run of characters satisfying `p` has length exactly `k`.
proof fn lemma_run_len_from(s: Seq<char>, p: spec_fn(char) -> bool, k: int)
    requires
        0 <= k <= s.len(),
        forall|j: int| 0 <= j < k ==> p(s[j]),
        k == s.len() || !p(s[k]),
    ensures
        run_len(s, p) == k,
    decreases s.len(),
{
    if k > 0 {
        lemma_run_len_from(s.skip(1), p, k - 1);
    }
}

/// The analogue of `lemma_run_len_from` for runs of spaces.
proof fn lemma_space_run_from(s: Seq<char>, k: int)
    requires
        0 <= k <= s.len(),
        forall|j: int| 0 <= j < k ==> s[j] == ' ',
        k == s.len() || s[k] != ' ',
    ensures
        space_run(s) == k,
    decreases s.len(),
{
    if k > 0 {
        lemma_space_run_from(s.skip(1), k - 1);
    }
}

/// A run of a predicate agreeing pointwise with `is_id_char` is an
/// identifier run.
proof fn lemma_id_run_agrees(s: Seq<char>, p: spec_fn(char) -> bool)
    requires
        forall|c: char| #[trigger] p(c) == is_id_char(c),
    ensures
        run_len(s, p) == id_run(s),
    decreases s.len(),
{
    if s.len() > 0 {
        lemma_id_run_agrees(s.skip(1), p);
    }
}

proof fn lemma_space_run_le(s: Seq<char>)
    ensures
        space_run(s) <= s.len(),
    decreases s.len(),
{
    if s.len() > 0 && s[0] == ' ' {
        lemma_space_run_le(s.skip(1));
    }
}

proof fn lemma_id_run_le(s: Seq<char>)
    ensures
        id_run(s) <= s.len(),
    decreases s.len(),
{
    if s.len() > 0 && is_id_char(s[0]) {
        lemma_id_run_le(s.skip(1));
    }
}

// ---------------------------------------------------------------------------
// The laws of the lexer.
// ---------------------------------------------------------------------------

/// Pushback round trip: after a string `s` is pushed back in front of input
/// `rem`, reading `s.len()` characters returns exactly `s` and leaves `rem`.
///
/// Together with the contracts of `push_back_char` / `push_back_str` (which
/// make the remaining input `s + rem`) and of `read` / `read_str` (which
/// return a prefix of the remaining input), this says that pushback is a
/// pure undo: what was pushed back is exactly what is read next.
pub proof fn lemma_pushback_round_trip(s: Seq<char>, rem: Seq<char>)
    ensures
        (s + rem).take(s.len() as int) == s,
        (s + rem).skip(s.len() as int) == rem,
{
    assert((s + rem).take(s.len() as int) =~= s);
    assert((s + rem).skip(s.len() as int) =~= rem);
}

/// Progress: every produced token consumes at least one character of the
/// remaining input, so a finite source yields a finite token sequence.
pub proof fn lemma_step_consumes(rem: Seq<char>, st: LexState, lm: Seq<char>, rm: Seq<char>)
    requires
        lm.len() > 0,
        rm.len() > 0,
    ensures
        token_step(rem, st, lm, rm).0 is Some ==> token_step(rem, st, lm, rm).1.len() < rem.len(),
{
    lemma_text_len_le(rem, lm);
    lemma_space_run_le(rem);
    lemma_id_run_le(rem.skip(space_run(rem) as int));
}

/// Determinism: the token sequence is a function of the characters and the
/// configuration alone. Two independently constructed tokenizers over the
/// same input, state and delimiter pair produce the same tokens; neither has
/// any effect on the other.
pub proof fn lemma_tokens_deterministic(
    rem1: Seq<char>,
    st1: LexState,
    lm1: Seq<char>,
    rm1: Seq<char>,
    rem2: Seq<char>,
    st2: LexState,
    lm2: Seq<char>,
    rm2: Seq<char>,
)
    requires
        rem1 == rem2,
        st1 == st2,
        lm1 == lm2,
        rm1 == rm2,
    ensures
        tokens_from(rem1, st1, lm1, rm1) == tokens_from(rem2, st2, lm2, rm2),
{
}

// ---------------------------------------------------------------------------
// Small executable helpers over strings.
// ---------------------------------------------------------------------------

/// Relies on String::push: appends the one character to the end of the string.
#[verifier::external_body]
fn push_char(s: &mut String, c: char)
    ensures
        final(s)@ == old(s)@.push(c),
{
    s.push(c);
}

/// Decides whether two string slices hold the same characters.
fn str_eq(a: &str, b: &str) -> (r: bool)
    ensures
        r == (a@ == b@),
{
    let na = a.unicode_len();
    let nb = b.unicode_len();
    if na != nb {
        return false;
    }
    let mut i: usize = 0;
    while i < na
        invariant
            i <= na,
            na == a@.len(),
            na == b@.len(),
            forall|j: int| 0 <= j < i ==> a@[j] == b@[j],
        decreases na - i,
    {
        if a.get_char(i) != b.get_char(i) {
            return false;
        }
        i = i + 1;
    }
    proof {
        assert(a@ =~= b@);
    }
    true
}

// ---------------------------------------------------------------------------
// The tokenizer.
// ---------------------------------------------------------------------------

/// A pull-based lexer over a character source, with a pushback queue so that
/// lookahead can be undone.
///
/// The tokenizer owns its source exclusively; all mutable state (the cursor,
/// the pushback queue, the current mode) lives in the one instance.
pub struct Tokenlizer {
    /// The underlying character source.
    src: Vec<char>,
    /// The cursor into `src`: the next character not yet handed out.
    pos: usize,
    /// The pushback queue; the element at the front is read next.
    buf: Vec<char>,
    /// Whether the cursor currently stands inside a tag.
    state: LexState,
    /// The open delimiter, fixed at construction.
    lm: String,
    /// The close delimiter, fixed at construction.
    rm: String,
}

impl Tokenlizer {
    /// The characters not yet consumed: the pushback queue followed by the
    /// rest of the underlying source.
    pub closed spec fn remaining(self) -> Seq<char> {
        self.buf@ + self.src@.skip(self.pos as int)
    }

    /// The current mode of the state machine.
    pub closed spec fn lex_state(self) -> LexState {
        self.state
    }

    /// The configured open delimiter.
    pub closed spec fn open_delim(self) -> Seq<char> {
        self.lm@
    }

    /// The configured close delimiter.
    pub closed spec fn close_delim(self) -> Seq<char> {
        self.rm@
    }

    /// Internal consistency: the cursor is in bounds and both delimiters are
    /// non-empty.
    pub closed spec fn wf(self) -> bool {
        self.pos <= self.src@.len() && self.lm@.len() > 0 && self.rm@.len() > 0
    }

    /// The tokenizer is still well formed and keeps the delimiters and the
    /// mode it had in `pre`: the operation only moved characters.
    pub open spec fn same_mode(self, pre: Tokenlizer) -> bool {
        &&& self.wf()
        &&& self.lex_state() == pre.lex_state()
        &&& self.open_delim() == pre.open_delim()
        &&& self.close_delim() == pre.close_delim()
    }

    /// Builds a tokenizer over `source` with the given delimiter pair.
    pub fn new(lm: &str, rm: &str, source: &str) -> (t: Tokenlizer)
        requires
            lm@.len() > 0,
            rm@.len() > 0,
        ensures
            t.wf(),
            t.remaining() == source@,
            t.lex_state() is Normal,
            t.open_delim() == lm@,
            t.close_delim() == rm@,
    {
        let n = source.unicode_len();
        let mut src: Vec<char> = Vec::new();
        let mut i: usize = 0;
        while i < n
            invariant
                i <= n,
                n == source@.len(),
                src@ == source@.take(i as int),
            decreases n - i,
        {
            src.push(source.get_char(i));
            i = i + 1;
        }
        let t = Tokenlizer {
            src,
            pos: 0,
            buf: Vec::new(),
            state: LexState::Normal,
            lm: lm.to_owned(),
            rm: rm.to_owned(),
        };
        proof {
            assert(source@.take(n as int) =~= source@);
            assert(t.remaining() =~= source@);
        }
        t
    }

    /// Hands out the next character, preferring the pushback queue over the
    /// underlying source; signals none at end of input.
    pub fn read(&mut self) -> (r: Option<char>)
        requires
            old(self).wf(),
        ensures
            final(self).same_mode(*old(self)),
            old(self).remaining().len() == 0 ==> r is None && *final(self) == *old(self),
            old(self).remaining().len() > 0 ==> r == Some(old(self).remaining()[0])
                && final(self).remaining() == old(self).remaining().skip(1),
    {
        if self.buf.len() > 0 {
            let c = self.buf.remove(0);
            proof {
                assert(old(self).remaining()[0] == c);
                assert(self.remaining() =~= old(self).remaining().skip(1));
            }
            Some(c)
        } else if self.pos < self.src.len() {
            let c = self.src[self.pos];
            self.pos = self.pos + 1;
            proof {
                assert(old(self).remaining()[0] == c);
                assert(self.remaining() =~= old(self).remaining().skip(1));
            }
            Some(c)
        } else {
            proof {
                assert(self.remaining() =~= Seq::<char>::empty());
            }
            None
        }
    }

    /// Prepends `ch` to the pushback queue, so that the next read returns it.
    pub fn push_back_char(&mut self, ch: char)
        requires
            old(self).wf(),
        ensures
            final(self).same_mode(*old(self)),
            final(self).remaining() == seq![ch] + old(self).remaining(),
    {
        self.buf.insert(0, ch);
        proof {
            assert(self.remaining() =~= seq![ch] + old(self).remaining());
        }
    }

    /// Prepends the whole of `st` to the pushback queue, in order: reading
    /// afterwards replays `st` front to back before the rest of the input.
    pub fn push_back_str(&mut self, st: &str)
        requires
            old(self).wf(),
        ensures
            final(self).same_mode(*old(self)),
            final(self).remaining() == st@ + old(self).remaining(),
    {
        let n = st.unicode_len();
        let mut i: usize = n;
        while i > 0
            invariant
                i <= n,
                n == st@.len(),
                self.same_mode(*old(self)),
                self.remaining() == st@.skip(i as int) + old(self).remaining(),
            decreases i,
        {
            i = i - 1;
            let c = st.get_char(i);
            self.push_back_char(c);
            proof {
                assert(self.remaining() =~= st@.skip(i as int) + old(self).remaining());
            }
        }
        proof {
            assert(st@.skip(0) + old(self).remaining() =~= st@ + old(self).remaining());
        }
    }

    /// Reads exactly `size` characters, all or nothing: when the input runs
    /// short, everything read is pushed back and none is signalled.
    pub fn read_str(&mut self, size: usize) -> (r: Option<String>)
        requires
            old(self).wf(),
        ensures
            final(self).same_mode(*old(self)),
            old(self).remaining().len() >= size ==> (r matches Some(s)
                && s@ == old(self).remaining().take(size as int)
                && final(self).remaining() == old(self).remaining().skip(size as int)),
            old(self).remaining().len() < size ==> r is None && final(self).remaining() == old(
                self,
            ).remaining(),
    {
        let mut buf = String::new();
        let mut i: usize = 0;
        while i < size
            invariant
                i <= size,
                i <= old(self).remaining().len(),
                self.same_mode(*old(self)),
                buf@ == old(self).remaining().take(i as int),
                self.remaining() == old(self).remaining().skip(i as int),
            decreases size - i,
        {
            match self.read() {
                Some(c) => {
                    push_char(&mut buf, c);
                    proof {
                        assert(buf@ =~= old(self).remaining().take(i + 1));
                        assert(self.remaining() =~= old(self).remaining().skip(i + 1));
                    }
                    i = i + 1;
                },
                None => {
                    // The source ran short after `i` characters: undo the read.
                    proof {
                        assert(old(self).remaining().len() == i);
                        assert(buf@ =~= old(self).remaining());
                    }
                    self.push_back_str(buf.as_str());
                    proof {
                        assert(self.remaining() =~= old(self).remaining());
                    }
                    return None;
                },
            }
        }
        Some(buf)
    }

    /// Consumes `st` when it stands at the front of the input and reports
    /// success; otherwise consumes nothing and reports failure.
    pub fn starts_with(&mut self, st: &str) -> (r: bool)
        requires
            old(self).wf(),
        ensures
            final(self).same_mode(*old(self)),
            r == has_prefix(old(self).remaining(), st@),
            r ==> final(self).remaining() == old(self).remaining().skip(st@.len() as int),
            !r ==> final(self).remaining() == old(self).remaining(),
    {
        let n = st.unicode_len();
        match self.read_str(n) {
            Some(temp) => {
                if str_eq(temp.as_str(), st) {
                    true
                } else {
                    self.push_back_str(temp.as_str());
                    proof {
                        assert(old(self).remaining().take(n as int) + old(self).remaining().skip(
                            n as int,
                        ) =~= old(self).remaining());
                    }
                    false
                }
            },
            None => false,
        }
    }

    /// Discards the run of plain spaces at the front of the input; the first
    /// other character (if any) is left in place.
    pub fn skip_ws(&mut self)
        requires
            old(self).wf(),
        ensures
            final(self).same_mode(*old(self)),
            final(self).remaining() == old(self).remaining().skip(
                space_run(old(self).remaining()) as int,
            ),
    {
        let ghost mut k: int = 0;
        loop
            invariant
                self.same_mode(*old(self)),
                0 <= k <= old(self).remaining().len(),
                forall|j: int| 0 <= j < k ==> old(self).remaining()[j] == ' ',
                self.remaining() == old(self).remaining().skip(k),
            decreases old(self).remaining().len() - k,
        {
            match self.read() {
                Some(c) => {
                    if c == ' ' {
                        proof {
                            k = k + 1;
                            assert(self.remaining() =~= old(self).remaining().skip(k));
                        }
                    } else {
                        self.push_back_char(c);
                        proof {
                            assert(self.remaining() =~= old(self).remaining().skip(k));
                            lemma_space_run_from(old(self).remaining(), k);
                        }
                        return ;
                    }
                },
                None => {
                    proof {
                        lemma_space_run_from(old(self).remaining(), k);
                    }
                    return ;
                },
            }
        }
    }

    /// Reads the run of characters satisfying `pred` at the front of the
    /// input; the first character that fails (if any) is left in place, and
    /// none is signalled when the run is empty.
    ///
    /// The ghost predicate `p` names what `pred` decides.
    pub fn read_while<F: Fn(char) -> bool>(
        &mut self,
        pred: F,
        Ghost(p): Ghost<spec_fn(char) -> bool>,
    ) -> (r: Option<String>)
        requires
            old(self).wf(),
            forall|c: char| #[trigger] pred.requires((c,)),
            forall|c: char, b: bool| #[trigger] pred.ensures((c,), b) ==> b == p(c),
        ensures
            final(self).same_mode(*old(self)),
            r is Some <==> run_len(old(self).remaining(), p) > 0,
            r matches Some(s) ==> s@ == old(self).remaining().take(
                run_len(old(self).remaining(), p) as int,
            ),
            final(self).remaining() == old(self).remaining().skip(
                run_len(old(self).remaining(), p) as int,
            ),
    {
        let mut buf = String::new();
        loop
            invariant
                self.same_mode(*old(self)),
                buf@.len() <= old(self).remaining().len(),
                buf@ == old(self).remaining().take(buf@.len() as int),
                self.remaining() == old(self).remaining().skip(buf@.len() as int),
                forall|j: int| 0 <= j < buf@.len() ==> p(old(self).remaining()[j]),
                forall|c: char| #[trigger] pred.requires((c,)),
                forall|c: char, b: bool| #[trigger] pred.ensures((c,), b) ==> b == p(c),
            decreases old(self).remaining().len() - buf@.len(),
        {
            let ghost k = buf@.len() as int;
            match self.read() {
                Some(c) => {
                    if pred(c) {
                        push_char(&mut buf, c);
                        proof {
                            assert(buf@ =~= old(self).remaining().take(k + 1));
                            assert(self.remaining() =~= old(self).remaining().skip(k + 1));
                        }
                    } else {
                        self.push_back_char(c);
                        proof {
                            assert(self.remaining() =~= old(self).remaining().skip(k));
                            lemma_run_len_from(old(self).remaining(), p, k);
                        }
                        if buf.as_str().is_empty() {
                            return None;
                        } else {
                            return Some(buf);
                        }
                    }
                },
                None => {
                    proof {
                        lemma_run_len_from(old(self).remaining(), p, k);
                    }
                    if buf.as_str().is_empty() {
                        return None;
                    } else {
                        return Some(buf);
                    }
                },
            }
        }
    }

    /// Reads up to, but not including, the first occurrence of `until`; the
    /// occurrence itself is pushed back so that it can be read again. When
    /// `until` never occurs, everything left is read. None is signalled
    /// exactly when there is nothing to return: the input is empty or the
    /// occurrence stands at its very front.
    pub fn read_until(&mut self, until: &str) -> (r: Option<String>)
        requires
            old(self).wf(),
            until@.len() > 0,
        ensures
            final(self).same_mode(*old(self)),
            text_len(old(self).remaining(), until@) > 0 ==> (r matches Some(s)
                && s@ == old(self).remaining().take(text_len(old(self).remaining(), until@) as int)
                && final(self).remaining() == old(self).remaining().skip(
                text_len(old(self).remaining(), until@) as int,
            )),
            text_len(old(self).remaining(), until@) == 0 ==> r is None && final(self).remaining()
                == old(self).remaining(),
    {
        let dlen = until.unicode_len();
        let mut buf = String::new();
        loop
            invariant
                self.same_mode(*old(self)),
                dlen == until@.len(),
                dlen > 0,
                buf@.len() <= old(self).remaining().len(),
                buf@ == old(self).remaining().take(buf@.len() as int),
                self.remaining() == old(self).remaining().skip(buf@.len() as int),
                forall|q: int|
                    0 <= q && q + until@.len() <= buf@.len() ==> !occurs_at(
                        old(self).remaining(),
                        until@,
                        q,
                    ),
            decreases old(self).remaining().len() - buf@.len(),
        {
            let ghost k = buf@.len() as int;
            match self.read() {
                Some(c) => {
                    push_char(&mut buf, c);
                    proof {
                        assert(buf@ =~= old(self).remaining().take(k + 1));
                        assert(self.remaining() =~= old(self).remaining().skip(k + 1));
                    }
                    let blen = buf.as_str().unicode_len();
                    if blen >= dlen {
                        let tail = buf.as_str().substring_char(blen - dlen, blen);
                        proof {
                            assert(tail@ =~= old(self).remaining().subrange(k + 1 - dlen, k + 1));
                        }
                        if str_eq(tail, until) {
                            // The first occurrence of the delimiter ends here.
                            proof {
                                assert(occurs_at(old(self).remaining(), until@, k + 1 - dlen));
                                lemma_text_len_found(old(self).remaining(), until@, k + 1 - dlen);
                            }
                            self.push_back_str(until);
                            let text = buf.as_str().substring_char(0, blen - dlen).to_owned();
                            proof {
                                assert(self.remaining() =~= old(self).remaining().skip(
                                    k + 1 - dlen,
                                ));
                                assert(text@ =~= old(self).remaining().take(k + 1 - dlen));
                            }
                            if blen == dlen {
                                proof {
                                    assert(old(self).remaining().skip(0) =~= old(
                                        self,
                                    ).remaining());
                                }
                                return None;
                            } else {
                                return Some(text);
                            }
                        }
                        proof {
                            assert(!occurs_at(old(self).remaining(), until@, k + 1 - dlen));
                        }
                    }
                    proof {
                        assert forall|q: int|
                            0 <= q && q + until@.len() <= k + 1 implies !occurs_at(
                            old(self).remaining(),
                            until@,
                            q,
                        ) by {
                            if q + until@.len() <= k {
                            } else {
                                assert(q == k + 1 - dlen);
                            }
                        }
                    }
                },
                None => {
                    proof {
                        assert(buf@ =~= old(self).remaining());
                        assert forall|q: int| !occurs_at(old(self).remaining(), until@, q) by {
                            if 0 <= q && q + until@.len() <= old(self).remaining().len() {
                                assert(!occurs_at(old(self).remaining(), until@, q));
                            }
                        }
                        lemma_text_len_none(old(self).remaining(), until@);
                    }
                    if buf.as_str().is_empty() {
                        proof {
                            assert(old(self).remaining().skip(0) =~= old(self).remaining());
                        }
                        return None;
                    } else {
                        return Some(buf);
                    }
                },
            }
        }
    }

    /// Produces the next token, or signals none when the sequence ends: one
    /// step of the lexical state machine, as [`token_step`] describes it.
    ///
    /// Outside a tag the open delimiter wins over text; inside a tag spaces
    /// are discarded, then `#`, `&`, `/`, `^`, the close delimiter and an
    /// identifier are tried in this fixed order. Unrecognized tag content
    /// silently ends the sequence.
    pub fn read_token(&mut self) -> (r: Option<Token>)
        requires
            old(self).wf(),
        ensures
            final(self).wf(),
            final(self).open_delim() == old(self).open_delim(),
            final(self).close_delim() == old(self).close_delim(),
            ({
                let (t, rest, st) = token_step(
                    old(self).remaining(),
                    old(self).lex_state(),
                    old(self).open_delim(),
                    old(self).close_delim(),
                );
                &&& (r is Some <==> t is Some)
                &&& (r matches Some(tok) ==> t matches Some(tv) && tok@ == tv)
                &&& final(self).remaining() == rest
                &&& final(self).lex_state() == st
            }),
    {
        let lm = self.lm.clone();
        let rm = self.rm.clone();
        match self.state {
            LexState::Normal => {
                if self.starts_with(lm.as_str()) {
                    self.state = LexState::InTag;
                    Some(Token::LMustache)
                } else {
                    match self.read_until(lm.as_str()) {
                        Some(s) => Some(Token::Text(s)),
                        None => None,
                    }
                }
            },
            LexState::InTag => {
                self.skip_ws();
                proof {
                    reveal_strlit("#");
                    reveal_strlit("&");
                    reveal_strlit("/");
                    reveal_strlit("^");
                    assert("#"@ =~= seq!['#']);
                    assert("&"@ =~= seq!['&']);
                    assert("/"@ =~= seq!['/']);
                    assert("^"@ =~= seq!['^']);
                }
                if self.starts_with("#") {
                    return Some(Token::Pound);
                }
                if self.starts_with("&") {
                    return Some(Token::UnescapeTag);
                }
                if self.starts_with("/") {
                    return Some(Token::Slash);
                }
                if self.starts_with("^") {
                    return Some(Token::Hat);
                }
                if self.starts_with(rm.as_str()) {
                    self.state = LexState::Normal;
                    return Some(Token::RMustache);
                }
                let ghost p: spec_fn(char) -> bool = |c: char| is_id_char(c);
                let r = self.read_while(is_id, Ghost(p));
                proof {
                    lemma_id_run_agrees(
                        old(self).remaining().skip(space_run(old(self).remaining()) as int),
                        p,
                    );
                }
                match r {
                    Some(s) => Some(Token::Id(s)),
                    None => None,
                }
            },
        }
    }

    /// Is the whole input consumed?
    pub fn at_end(&self) -> (r: bool)
        requires
            self.wf(),
        ensures
            r == (self.remaining().len() == 0),
    {
        self.buf.len() == 0 && self.pos == self.src.len()
    }

    /// Like [`Self::read_token`], but when the sequence ends inside a tag it
    /// says why: the input ran out before the close delimiter, or the next
    /// character is not recognized there. Outside a tag, the end of the
    /// input is the ordinary end of the sequence.
    pub fn read_token_checked(&mut self) -> (r: Result<Option<Token>, LexError>)
        requires
            old(self).wf(),
        ensures
            final(self).wf(),
            final(self).open_delim() == old(self).open_delim(),
            final(self).close_delim() == old(self).close_delim(),
            ({
                let (t, rest, st) = token_step(
                    old(self).remaining(),
                    old(self).lex_state(),
                    old(self).open_delim(),
                    old(self).close_delim(),
                );
                &&& (t matches Some(tv) ==> (r matches Ok(o) && o matches Some(tok) && tok@
                    == tv))
                &&& (t is None && st is Normal ==> (r matches Ok(o) && o is None))
                &&& (t is None && st is InTag && rest.len() == 0 ==> (r matches Err(e)
                    && e is UnterminatedTag))
                &&& (t is None && st is InTag && rest.len() > 0 ==> (r matches Err(e)
                    && e is UnrecognizedTagContent))
                &&& final(self).remaining() == rest
                &&& final(self).lex_state() == st
            }),
    {
        match self.read_token() {
            Some(t) => Ok(Some(t)),
            None => match self.state {
                LexState::Normal => Ok(None),
                LexState::InTag => {
                    if self.at_end() {
                        Err(LexError::UnterminatedTag)
                    } else {
                        Err(LexError::UnrecognizedTagContent)
                    }
                },
            },
        }
    }
}

} // verus!
