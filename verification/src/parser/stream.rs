use super::error::ParseError;
use crate::token::Token;
use vstd::prelude::*;

verus! {

/// The state of a token stream: its tokens and the index of the next one.
pub type StreamState<T> = (Seq<T>, nat);

/// The index read `n` tokens ahead in state `v`: past the end, the last token
/// is read again.
pub open spec fn clamp_index<T>(v: StreamState<T>, n: int) -> int {
    if v.1 + n < v.0.len() - 1 {
        v.1 + n
    } else {
        v.0.len() - 1
    }
}

/// The token read `n` tokens ahead in state `v`.
pub open spec fn token_at<T>(v: StreamState<T>, n: int) -> T {
    v.0[clamp_index(v, n)]
}

/// State `v` after one `advance`: the position moves on until it is past
/// the last token.
pub open spec fn advanced<T>(v: StreamState<T>) -> StreamState<T> {
    (v.0, if v.1 < v.0.len() { v.1 + 1 } else { v.1 })
}

/// State `v` moved back to position `p`.
pub open spec fn restored<T>(v: StreamState<T>, p: nat) -> StreamState<T> {
    (v.0, p)
}

/// Restoring a checkpoint undoes every move made since it was taken: any
/// state reached from `v` over the same tokens, moved back to `v`'s
/// position, is `v` again.
pub proof fn lemma_restore_checkpoint<T>(v: StreamState<T>, w: StreamState<T>)
    requires
        w.0 == v.0,
    ensures
        restored(w, v.1) == v,
{
}

/// Advancing moves at most one token, never backwards, and keeps the
/// tokens.
pub proof fn lemma_advance_moves_one<T>(v: StreamState<T>)
    ensures
        advanced(v).0 == v.0,
        v.1 <= advanced(v).1 <= v.1 + 1,
{
}

/// Once the position reaches the last token, the stream stays on it:
/// every read, however far ahead, gives the last token, and advancing
/// changes no read.
pub proof fn lemma_exhausted_stream<T>(v: StreamState<T>, n: int)
    requires
        v.0.len() > 0,
        v.1 + 1 >= v.0.len(),
        n >= 0,
    ensures
        token_at(v, n) == v.0.last(),
        token_at(advanced(v), n) == v.0.last(),
{
}

/// Reading `n` tokens ahead gives the token at the position plus `n` while
/// it is in the list.
pub proof fn lemma_lookahead<T>(v: StreamState<T>, n: int)
    requires
        n >= 0,
        v.1 + n < v.0.len(),
    ensures
        token_at(v, n) == v.0[v.1 + n],
{
}

/// Reading at or past the last token gives the last token, whatever the
/// position: lookahead never stops short of the end-of-input sentinel.
pub proof fn lemma_lookahead_past_end<T>(v: StreamState<T>, n: int)
    requires
        v.0.len() > 0,
        n >= 0,
        v.1 + n >= v.0.len() - 1,
    ensures
        token_at(v, n) == v.0.last(),
{
}

/// A peekable, restartable stream of tokens, as a lexer produces them.
///
/// The token list is never empty. Once the position passes the last token,
/// reads give the last token, which by convention is an end-of-input
/// sentinel.
pub struct TokenStream<T> {
    tokens: Vec<T>,
    pos: usize,
}

impl<T> View for TokenStream<T> {
    type V = StreamState<T>;

    closed spec fn view(&self) -> StreamState<T> {
        (self.tokens@, self.pos as nat)
    }
}

impl<T> TokenStream<T> {
    #[verifier::type_invariant]
    spec fn inv(self) -> bool {
        self.tokens@.len() > 0
    }
}

impl<T: Token> TokenStream<T> {
    /// A stream over `tokens`, which must be non-empty and end with an
    /// end-of-input sentinel.
    pub fn new(tokens: Vec<T>) -> (s: Self)
        requires
            tokens@.len() > 0,
            tokens@.last().spec_is_eof(),
        ensures
            s@ == (tokens@, 0nat),
    {
        TokenStream { tokens, pos: 0 }
    }

    /// The next token, without consuming it. Past the end it is the last
    /// token.
    pub fn peek(&self) -> (t: &T)
        ensures
            *t == token_at(self@, 0),
            self@.0.len() > 0,
    {
        proof {
            use_type_invariant(self);
        }
        let last = self.tokens.len() - 1;
        let i = if self.pos < last {
            self.pos
        } else {
            last
        };
        &self.tokens[i]
    }

    /// The token `n` places ahead (0 is the same as `peek`), without
    /// consuming; past the end it is the last token.
    pub fn peek_nth(&self, n: usize) -> (t: &T)
        requires
            self@.1 + n <= usize::MAX,
        ensures
            *t == token_at(self@, n as int),
    {
        proof {
            use_type_invariant(self);
        }
        let last = self.tokens.len() - 1;
        let ahead = self.pos + n;
        let i = if ahead < last {
            ahead
        } else {
            last
        };
        &self.tokens[i]
    }

    /// Consumes and returns the next token; once the stream is exhausted it
    /// returns the last token on every call.
    pub fn advance(&mut self) -> (t: &T)
        ensures
            *t == token_at(old(self)@, 0),
            final(self)@ == advanced(old(self)@),
    {
        proof {
            use_type_invariant(&*self);
        }
        let last = self.tokens.len() - 1;
        let i = if self.pos < last {
            self.pos
        } else {
            last
        };
        if self.pos < self.tokens.len() {
            self.pos = self.pos + 1;
        }
        &self.tokens[i]
    }

    /// Whether the next token is an end-of-input sentinel.
    pub fn is_at_end(&self) -> (b: bool)
        ensures
            b == token_at(self@, 0).spec_is_eof(),
    {
        self.peek().is_eof()
    }

    /// The current position, to come back to later.
    pub fn checkpoint(&self) -> (p: usize)
        ensures
            p == self@.1,
            self@.0.len() > 0,
    {
        proof {
            use_type_invariant(self);
        }
        self.pos
    }

    /// Moves back (or forward) to a saved position.
    pub fn restore(&mut self, checkpoint: usize)
        ensures
            final(self)@ == restored(old(self)@, checkpoint as nat),
    {
        proof {
            use_type_invariant(&*self);
        }
        self.pos = checkpoint;
    }

    /// Calls `f`; if it fails, moves back to where the stream was before the
    /// call.
    pub fn try_parse<R, E>(&mut self, f: impl FnOnce(&mut Self) -> Result<R, E>) -> (res: Result<R, E>)
        requires
            forall|s: &mut Self| s@ == old(self)@ ==> call_requires(f, (s,)),
        ensures
            exists|s: &mut Self|
                s@ == old(self)@ && call_ensures(f, (s,), res) && final(self)@ == (if res is Ok {
                    final(s)@
                } else {
                    restored(final(s)@, old(self)@.1)
                }),
    {
        let checkpoint = self.checkpoint();
        match f(self) {
            Ok(r) => Ok(r),
            Err(e) => {
                self.restore(checkpoint);
                Err(e)
            },
        }
    }

    /// Collects the results of repeated calls to `f` until one fails, and
    /// moves back to where that call started. Stops as well after a success
    /// that did not move the position. `f` must never move the stream
    /// backwards when it succeeds, so that the repetition ends.
    ///
    /// The contract names the states `states[0]` (the stream on entry) to
    /// `states[n]` between the calls: call `i` went from `states[i]` to
    /// `states[i + 1]` returning `Ok(v[i])`, every success but the last
    /// moved the position, and either the last success did not move it (the
    /// stream stays there) or the call after it failed (the stream keeps what
    /// that call left of the tokens, at the position of `states[n]`).
    ///
    /// When every success of `f` keeps the tokens and, started within them,
    /// ends within them, and the stream starts within its tokens, `f` is
    /// called at most once more than there are tokens left, so there are
    /// at most that many results.
    #[verifier::spinoff_prover]
    pub fn many<R>(&mut self, mut f: impl FnMut(&mut Self) -> Result<R, ParseError>) -> (v: Vec<R>)
        requires
            forall|s: &mut Self| call_requires(f, (s,)),
            forall|s: &mut Self, r: Result<R, ParseError>|
                #![trigger call_ensures(f, (s,), r)]
                call_ensures(f, (s,), r) && r is Ok ==> final(s)@.1 >= s@.1,
        ensures
            exists|states: Seq<StreamState<T>>|
                #![trigger states[0]]
                ({
                    let n = v@.len() as int;
                    &&& states.len() == n + 1
                    &&& states[0] == old(self)@
                    &&& forall|i: int|
                        #![trigger states[i]]
                        0 <= i < n ==> exists|s: &mut Self|
                            s@ == states[i] && final(s)@ == states[i + 1] && call_ensures(
                                f,
                                (s,),
                                Ok::<R, ParseError>(v@[i]),
                            )
                    &&& forall|i: int|
                        #![trigger states[i]]
                        0 <= i && i + 2 <= n ==> states[i + 1].1 != states[i].1
                    &&& {
                        ||| (n > 0 && states[n].1 == states[n - 1].1 && final(self)@ == states[n])
                        ||| ((n == 0 || states[n].1 != states[n - 1].1) && exists|
                            s: &mut Self,
                            e: ParseError,
                        |
                            s@ == states[n] && call_ensures(f, (s,), Err::<R, ParseError>(e))
                                && final(self)@ == restored(final(s)@, states[n].1))
                    }
                }),
            (old(self)@.1 <= old(self)@.0.len() && forall|s: &mut Self, r: Result<R, ParseError>|
                #![trigger call_ensures(f, (s,), r)]
                call_ensures(f, (s,), r) && r is Ok ==> final(s)@.0 == s@.0 && (s@.1 <= s@.0.len()
                    ==> final(s)@.1 <= final(s)@.0.len())) ==> v@.len() <= old(self)@.0.len()
                - old(self)@.1 + 1,
    {
        let ghost f0 = f;
        let mut results: Vec<R> = Vec::new();
        let ghost mut states: Seq<StreamState<T>> = seq![self@];
        loop
            invariant_except_break
                f == f0,
                states.last() == self@,
                forall|i: int|
                    #![trigger states[i]]
                    0 <= i < results@.len() ==> states[i + 1].1 != states[i].1,
                (old(self)@.1 <= old(self)@.0.len() && forall|s: &mut Self, r: Result<R, ParseError>|
                    #![trigger call_ensures(f0, (s,), r)]
                    call_ensures(f0, (s,), r) && r is Ok ==> final(s)@.0 == s@.0 && (s@.1
                        <= s@.0.len() ==> final(s)@.1 <= final(s)@.0.len())) ==> (self@.0
                    == old(self)@.0 && self@.1 <= old(self)@.0.len() && self@.1 >= old(self)@.1
                    + results@.len()),
            invariant
                forall|s: &mut Self| call_requires(f0, (s,)),
                forall|s: &mut Self, r: Result<R, ParseError>|
                    #![trigger call_ensures(f0, (s,), r)]
                    call_ensures(f0, (s,), r) && r is Ok ==> final(s)@.1 >= s@.1,
                states.len() == results@.len() + 1,
                states[0] == old(self)@,
                forall|i: int|
                    #![trigger states[i]]
                    0 <= i < results@.len() ==> exists|s: &mut Self|
                        s@ == states[i] && final(s)@ == states[i + 1] && call_ensures(
                            f0,
                            (s,),
                            Ok::<R, ParseError>(results@[i]),
                        ),
            ensures
                forall|i: int|
                    #![trigger states[i]]
                    0 <= i && i + 2 <= results@.len() ==> states[i].1 != states[i + 1].1,
                ({
                    let n = results@.len() as int;
                    ||| (n > 0 && states[n].1 == states[n - 1].1 && self@ == states[n])
                    ||| ((n == 0 || states[n].1 != states[n - 1].1) && exists|
                        s: &mut Self,
                        e: ParseError,
                    |
                        s@ == states[n] && call_ensures(f0, (s,), Err::<R, ParseError>(e))
                            && self@ == restored(final(s)@, states[n].1))
                }),
                (old(self)@.1 <= old(self)@.0.len() && forall|s: &mut Self, r: Result<R, ParseError>|
                    #![trigger call_ensures(f0, (s,), r)]
                    call_ensures(f0, (s,), r) && r is Ok ==> final(s)@.0 == s@.0 && (s@.1
                        <= s@.0.len() ==> final(s)@.1 <= final(s)@.0.len())) ==> results@.len()
                    <= old(self)@.0.len() - old(self)@.1 + 1,
            decreases usize::MAX - self@.1,
        {
            let checkpoint = self.checkpoint();
            let res = f(self);
            match res {
                Ok(r) => {
                    results.push(r);
                    proof {
                        states = states.push(self@);
                    }
                    if self.checkpoint() == checkpoint {
                        break;
                    }
                },
                Err(_) => {
                    self.restore(checkpoint);
                    break;
                },
            }
        }
        results
    }

    /// Like `many`, but the first call must succeed: its error is returned
    /// otherwise, with the stream where that call left it. On success it is
    /// one call of `f` followed by `many`: the first result comes from a call
    /// that went from the stream as it was to `states[0]`, and the rest of
    /// the results, the states and the final stream are exactly what
    /// `many`'s contract gives for a `many` started in `states[0]`.
    #[verifier::spinoff_prover]
    pub fn many1<R>(&mut self, mut f: impl FnMut(&mut Self) -> Result<R, ParseError>) -> (res: Result<Vec<R>, ParseError>)
        requires
            forall|s: &mut Self| call_requires(f, (s,)),
            forall|s: &mut Self, r: Result<R, ParseError>|
                #![trigger call_ensures(f, (s,), r)]
                call_ensures(f, (s,), r) && r is Ok ==> final(s)@.1 >= s@.1,
        ensures
            match res {
                Err(e) => exists|s: &mut Self|
                    s@ == old(self)@ && final(s)@ == final(self)@ && call_ensures(
                        f,
                        (s,),
                        Err::<R, ParseError>(e),
                    ),
                Ok(v) => v@.len() >= 1 && exists|states: Seq<StreamState<T>>|
                    #![trigger states[0]]
                    ({
                        let w = v@.drop_first();
                        let n = w.len() as int;
                        &&& exists|s: &mut Self|
                            s@ == old(self)@ && final(s)@ == states[0] && call_ensures(
                                f,
                                (s,),
                                Ok::<R, ParseError>(v@[0]),
                            )
                        &&& states.len() == n + 1
                        &&& forall|i: int|
                            #![trigger states[i]]
                            0 <= i < n ==> exists|s: &mut Self|
                                s@ == states[i] && final(s)@ == states[i + 1] && call_ensures(
                                    f,
                                    (s,),
                                    Ok::<R, ParseError>(w[i]),
                                )
                        &&& forall|i: int|
                            #![trigger states[i]]
                            0 <= i && i + 2 <= n ==> states[i + 1].1 != states[i].1
                        &&& {
                            ||| (n > 0 && states[n].1 == states[n - 1].1 && final(self)@
                                == states[n])
                            ||| ((n == 0 || states[n].1 != states[n - 1].1) && exists|
                                s: &mut Self,
                                e: ParseError,
                            |
                                s@ == states[n] && call_ensures(f, (s,), Err::<R, ParseError>(e))
                                    && final(self)@ == restored(final(s)@, states[n].1))
                        }
                    }),
            },
    {
        // The stream as the first call finds it.
        let ghost start = self@;
        let first = match f(self) {
            Ok(r) => r,
            Err(e) => {
                return Err(e);
            },
        };
        let mut results = vec![first];
        let mut rest = self.many(f);
        let ghost rest_v = rest@;
        results.append(&mut rest);
        proof {
            assert(results@ =~= seq![first] + rest_v);
            assert(results@.drop_first() =~= rest_v);
            assert(results@[0] == first);
        }
        Ok(results)
    }

    /// Calls `f` once: `Some` of its result on success; `None` on failure,
    /// after moving back to where the stream was.
    pub fn optional<R>(&mut self, f: impl FnOnce(&mut Self) -> Result<R, ParseError>) -> (res: Option<R>)
        requires
            forall|s: &mut Self| s@ == old(self)@ ==> call_requires(f, (s,)),
        ensures
            exists|s: &mut Self|
                s@ == old(self)@ && match res {
                    Some(r) => call_ensures(f, (s,), Ok::<R, ParseError>(r)) && final(self)@
                        == final(s)@,
                    None => exists|e: ParseError|
                        call_ensures(f, (s,), Err::<R, ParseError>(e)) && final(self)@
                            == restored(final(s)@, old(self)@.1),
                },
    {
        let checkpoint = self.checkpoint();
        match f(self) {
            Ok(r) => Some(r),
            Err(_) => {
                self.restore(checkpoint);
                None
            },
        }
    }

    /// Parses `item`, then again after each next token that `sep` accepts:
    /// `item (sep item)*`. The first item must succeed (its error is
    /// returned otherwise, with the stream where it left it). A separator
    /// whose item fails is put back, so a trailing separator is never
    /// consumed.
    ///
    /// `item` must never move the stream backwards when it succeeds. Past
    /// the last token, where `advance` no longer moves, a success of `item`
    /// must move the stream forwards if `sep` can accept the last token;
    /// without that, the repetition would be endless.
    #[verifier::spinoff_prover]
    pub fn separated_by<R>(
        &mut self,
        mut item: impl FnMut(&mut Self) -> Result<R, ParseError>,
        mut sep: impl FnMut(&T) -> bool,
    ) -> (res: Result<Vec<R>, ParseError>)
        requires
            forall|s: &mut Self| call_requires(item, (s,)),
            forall|s: &mut Self, r: Result<R, ParseError>|
                #![trigger call_ensures(item, (s,), r)]
                call_ensures(item, (s,), r) && r is Ok ==> final(s)@.1 >= s@.1,
            forall|s: &mut Self, r: Result<R, ParseError>|
                #![trigger call_ensures(item, (s,), r)]
                call_ensures(item, (s,), r) && r is Ok && s@.1 >= s@.0.len() && call_ensures(
                    sep,
                    (&s@.0.last(),),
                    true,
                ) ==> final(s)@.1 > s@.1,
            forall|t: &T| call_requires(sep, (t,)),
        ensures
            match res {
                Err(e) => exists|s: &mut Self|
                    s@ == old(self)@ && final(s)@ == final(self)@ && call_ensures(
                        item,
                        (s,),
                        Err::<R, ParseError>(e),
                    ),
                Ok(v) => exists|states: Seq<StreamState<T>>|
                    #![trigger states[0]]
                    ({
                        let n = v@.len() as int;
                        &&& n >= 1
                        &&& states.len() == n
                        &&& exists|s: &mut Self|
                            s@ == old(self)@ && final(s)@ == states[0] && call_ensures(
                                item,
                                (s,),
                                Ok::<R, ParseError>(v@[0]),
                            )
                        &&& forall|i: int|
                            #![trigger token_at(states[i], 0)]
                            0 <= i && i + 1 < n ==> call_ensures(sep, (&token_at(states[i], 0),), true)
                                && exists|s: &mut Self|
                                s@ == advanced(states[i]) && final(s)@ == states[i + 1]
                                    && call_ensures(item, (s,), Ok::<R, ParseError>(v@[i + 1]))
                        &&& {
                            ||| (call_ensures(sep, (&token_at(states[n - 1], 0),), false)
                                && final(self)@ == states[n - 1])
                            ||| (call_ensures(sep, (&token_at(states[n - 1], 0),), true) && exists|
                                s: &mut Self,
                                e: ParseError,
                            |
                                s@ == advanced(states[n - 1]) && call_ensures(
                                    item,
                                    (s,),
                                    Err::<R, ParseError>(e),
                                ) && final(self)@ == restored(final(s)@, states[n - 1].1))
                        }
                    }),
            },
    {
        let ghost item0 = item;
        let ghost sep0 = sep;
        let ghost start = self@;
        let first = match item(self) {
            Ok(r) => r,
            Err(e) => {
                return Err(e);
            },
        };
        let mut results = vec![first];
        let ghost mut states: Seq<StreamState<T>> = seq![self@];
        loop
            invariant_except_break
                item == item0,
                sep == sep0,
                states.last() == self@,
            invariant
                forall|s: &mut Self| call_requires(item0, (s,)),
                forall|s: &mut Self, r: Result<R, ParseError>|
                    #![trigger call_ensures(item0, (s,), r)]
                    call_ensures(item0, (s,), r) && r is Ok ==> final(s)@.1 >= s@.1,
                forall|s: &mut Self, r: Result<R, ParseError>|
                    #![trigger call_ensures(item0, (s,), r)]
                    call_ensures(item0, (s,), r) && r is Ok && s@.1 >= s@.0.len() && call_ensures(
                        sep0,
                        (&s@.0.last(),),
                        true,
                    ) ==> final(s)@.1 > s@.1,
                forall|t: &T| call_requires(sep0, (t,)),
                results@.len() >= 1,
                states.len() == results@.len(),
                exists|s: &mut Self|
                    s@ == start && final(s)@ == states[0] && call_ensures(
                        item0,
                        (s,),
                        Ok::<R, ParseError>(results@[0]),
                    ),
                forall|i: int|
                    #![trigger token_at(states[i], 0)]
                    0 <= i && i + 1 < results@.len() ==> call_ensures(
                        sep0,
                        (&token_at(states[i], 0),),
                        true,
                    ) && exists|s: &mut Self|
                        s@ == advanced(states[i]) && final(s)@ == states[i + 1] && call_ensures(
                            item0,
                            (s,),
                            Ok::<R, ParseError>(results@[i + 1]),
                        ),
            ensures
                ({
                    let n = results@.len() as int;
                    ||| (call_ensures(sep0, (&token_at(states[n - 1], 0),), false) && self@
                        == states[n - 1])
                    ||| (call_ensures(sep0, (&token_at(states[n - 1], 0),), true) && exists|
                        s: &mut Self,
                        e: ParseError,
                    |
                        s@ == advanced(states[n - 1]) && call_ensures(
                            item0,
                            (s,),
                            Err::<R, ParseError>(e),
                        ) && self@ == restored(final(s)@, states[n - 1].1))
                }),
            decreases usize::MAX - self@.1,
        {
            let checkpoint = self.checkpoint();
            let ghost prev = results@;
            let ghost prev_states = states;
            let ghost before = self@;
            let accepted = sep(self.peek());
            if !accepted {
                break;
            }
            self.advance();
            proof {
                if before.1 >= before.0.len() {
                    lemma_exhausted_stream(before, 0);
                }
            }
            let res = item(self);
            assert(forall|i: int|
                #![trigger token_at(prev_states[i], 0)]
                0 <= i && i + 1 < prev.len() ==> call_ensures(
                    sep0,
                    (&token_at(prev_states[i], 0),),
                    true,
                ) && exists|s: &mut Self|
                    s@ == advanced(prev_states[i]) && final(s)@ == prev_states[i + 1]
                        && call_ensures(item0, (s,), Ok::<R, ParseError>(prev[i + 1])));
            match res {
                Ok(r) => {
                    results.push(r);
                    proof {
                        let n = prev.len() as int;
                        states = states.push(self@);
                        assert(exists|s: &mut Self|
                            s@ == advanced(states[n - 1]) && final(s)@ == states[n]
                                && call_ensures(item0, (s,), Ok::<R, ParseError>(results@[n])));
                        assert forall|i: int|
                            #![trigger token_at(states[i], 0)]
                            0 <= i && i + 1 < results@.len() implies (call_ensures(
                            sep0,
                            (&token_at(states[i], 0),),
                            true,
                        ) && (exists|s: &mut Self|
                            s@ == advanced(states[i]) && final(s)@ == states[i + 1]
                                && call_ensures(item0, (s,), Ok::<R, ParseError>(results@[i + 1])))) by {
                            if i + 1 < n {
                                assert(results@[i + 1] == prev[i + 1]);
                                assert(states[i] == prev_states[i]);
                                assert(states[i + 1] == prev_states[i + 1]);
                                assert(token_at(prev_states[i], 0) == token_at(states[i], 0));
                            }
                        }
                    }
                },
                Err(_) => {
                    self.restore(checkpoint);
                    break;
                },
            }
        }
        Ok(results)
    }
}

/// The message of the error that `expect` returns for `label`.
pub open spec fn expected_message(label: Seq<char>) -> Seq<char> {
    "expected `"@ + label + "`"@
}

impl<T: Token + Copy> TokenStream<T> {
    /// Consumes and returns the next token if `pred` accepts it; otherwise
    /// returns an error at that token's span whose message is
    /// ``expected `label` `` (the word "expected" is added here).
    pub fn expect(&mut self, pred: impl FnOnce(&T) -> bool, label: &str) -> (res: Result<T, ParseError>)
        requires
            call_requires(pred, (&token_at(old(self)@, 0),)),
        ensures
            match res {
                Ok(t) => call_ensures(pred, (&token_at(old(self)@, 0),), true) && t == token_at(
                    old(self)@,
                    0,
                ) && final(self)@ == advanced(old(self)@),
                Err(e) => call_ensures(pred, (&token_at(old(self)@, 0),), false) && final(self)@
                    == old(self)@ && e.is_plain(
                    token_at(old(self)@, 0).spec_span(),
                    expected_message(label@),
                ),
            },
    {
        if pred(self.peek()) {
            Ok(*self.advance())
        } else {
            let span = self.peek().span();
            let mut message = String::new();
            message.append("expected `");
            message.append(label);
            message.append("`");
            Err(ParseError::new(span, message.as_str()))
        }
    }
}


} // verus!
