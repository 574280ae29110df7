//! Tokenization: patterns that classify text into token kinds, and a
//! longest-prefix tokenizer over a character buffer.

use vstd::prelude::*;

verus! {

broadcast use vstd::std_specs::vec::axiom_spec_len;

/// The compiled regular expression type of the `regex` crate, carried
/// opaquely: nothing of its inside is visible to verification.
#[verifier::external_type_specification]
#[verifier::external_body]
pub struct ExRegex(regex::Regex);

/// Relies on `regex::Regex::is_match`.  The result depends on the
/// compiled pattern, of which nothing is known here, so nothing is
/// promised of it; callers state only what holds of every outcome.
#[verifier::external_body]
fn regex_is_match(re: &regex::Regex, text: &Vec<char>) -> bool {
    let s: String = text.iter().collect();
    re.is_match(&s)
}

/// What a token pattern matches against: a compiled regular expression,
/// or a list of literal spellings.
pub enum Pattern {
    Regex(regex::Regex),
    Literals(Vec<Vec<char>>),
}

/// `text` equals one of the literal spellings.
pub open spec fn literal_match(lits: Seq<Vec<char>>, text: Seq<char>) -> bool {
    exists|j: int| 0 <= j < lits.len() && (#[trigger] lits[j])@ == text
}

/// Some pattern's literal list matches the length-`len` prefix of the
/// input at `pos`.
pub open spec fn literal_prefix_match(
    patterns: Seq<TokenPattern>,
    input: Seq<char>,
    pos: int,
    len: int,
) -> bool {
    exists|k: int|
        0 <= k < patterns.len() && (#[trigger] patterns[k]).pattern is Literals && literal_match(
            patterns[k].pattern->Literals_0@,
            input.subrange(pos, pos + len),
        )
}

/// Some literal pattern matches some non-empty prefix of the input at
/// `pos`.
pub open spec fn some_literal_match(
    patterns: Seq<TokenPattern>,
    input: Seq<char>,
    pos: int,
) -> bool {
    exists|len: int|
        1 <= len <= input.len() - pos && #[trigger] literal_prefix_match(patterns, input, pos, len)
}

/// Every pattern matches by literal list (no regular expressions).
pub open spec fn all_literal(patterns: Seq<TokenPattern>) -> bool {
    forall|k: int| 0 <= k < patterns.len() ==> (#[trigger] patterns[k]).pattern is Literals
}

impl Pattern {
    /// Whether the pattern matches the whole of `text`.  For a literal
    /// list the answer is exact; for a regular expression it is whatever
    /// the expression decides.
    pub fn is_match(&self, text: &Vec<char>) -> (r: bool)
        ensures
            self is Literals ==> r == literal_match(self->Literals_0@, text@),
    {
        match self {
            Pattern::Regex(re) => regex_is_match(re, text),
            Pattern::Literals(lits) => {
                let mut j: usize = 0;
                while j < lits.len()
                    invariant
                        0 <= j <= lits@.len(),
                        *self is Literals,
                        lits@ == self->Literals_0@,
                        forall|k: int| 0 <= k < j ==> (#[trigger] lits@[k])@ != text@,
                    decreases lits@.len() - j,
                {
                    if chars_equal(&lits[j], text) {
                        proof {
                            assert((lits@[j as int])@ == text@);
                            assert(literal_match(lits@, text@));
                            assert(lits@ == self->Literals_0@);
                        }
                        return true;
                    }
                    j += 1;
                }
                false
            }
        }
    }
}

/// Character-for-character equality of two buffers.
pub fn chars_equal(a: &Vec<char>, b: &Vec<char>) -> (r: bool)
    ensures
        r == (a@ == b@),
{
    if a.len() != b.len() {
        return false;
    }
    let mut i: usize = 0;
    while i < a.len()
        invariant
            0 <= i <= a@.len(),
            a@.len() == b@.len(),
            forall|j: int| 0 <= j < i ==> a@[j] == b@[j],
        decreases a@.len() - i,
    {
        if a[i] != b[i] {
            return false;
        }
        i += 1;
    }
    proof {
        assert(a@ =~= b@);
    }
    true
}

/// A token: its kind tag and the text it covers.
#[derive(Clone, Debug)]
pub struct Token {
    pub kind: u32,
    pub value: Vec<char>,
}

impl Token {
    pub fn new(kind: u32, value: Vec<char>) -> (r: Token)
        ensures
            r.kind == kind,
            r.value@ == value@,
    {
        Token { kind, value }
    }

    pub fn get_kind(&self) -> (r: u32)
        ensures
            r == self.kind,
    {
        self.kind
    }

    pub fn get_value(&self) -> (r: &Vec<char>)
        ensures
            r@ == self.value@,
    {
        &self.value
    }
}

/// A token kind paired with the pattern that recognizes it.
pub struct TokenPattern {
    pub kind: u32,
    pub pattern: Pattern,
}

impl TokenPattern {
    pub fn new(kind: u32, pattern: Pattern) -> (r: TokenPattern)
        ensures
            r.kind == kind,
    {
        TokenPattern { kind, pattern }
    }

    /// A token of this pattern's kind covering the whole of `text`, if the
    /// pattern matches it.  For a literal pattern, the match is exact:
    /// a token comes back precisely when `text` is one of the spellings.
    pub fn match_token(&self, text: &Vec<char>) -> (r: Option<Token>)
        ensures
            match r {
                Some(t) => t.kind == self.kind && t.value@ == text@,
                None => true,
            },
            self.pattern is Literals ==> (r is Some <==> literal_match(
                self.pattern->Literals_0@,
                text@,
            )),
    {
        if self.pattern.is_match(text) {
            let mut value: Vec<char> = Vec::new();
            let mut i: usize = 0;
            while i < text.len()
                invariant
                    0 <= i <= text@.len(),
                    value@ == text@.take(i as int),
                decreases text@.len() - i,
            {
                value.push(text[i]);
                i += 1;
            }
            proof {
                assert(text@.take(text@.len() as int) == text@);
            }
            Some(Token { kind: self.kind, value })
        } else {
            None
        }
    }
}

/// Raised when no pattern matches any prefix of the remaining input.
#[derive(Clone, Copy, Debug, PartialEq, Eq, Structural)]
pub struct TokenNotMatchedError {}

/// A longest-prefix tokenizer: repeatedly matches the longest prefix of
/// the remaining input against the patterns, first pattern wins.
pub struct Tokenizer {
    pub input: Vec<char>,
    pub pos: usize,
    pub patterns: Vec<TokenPattern>,
}

impl Tokenizer {
    pub open spec fn wf(self) -> bool {
        self.pos <= self.input@.len()
    }

    pub fn new(input: Vec<char>, patterns: Vec<TokenPattern>) -> (r: Tokenizer)
        ensures
            r.input@ == input@,
            r.pos == 0,
            r.patterns@ == patterns@,
            r.wf(),
    {
        Tokenizer { input, pos: 0, patterns }
    }

    /// The next token of the input.  `None` at end of input; otherwise a
    /// token covering a non-empty prefix of the remaining input, the
    /// position advanced past it, or an error with the position held.
    ///
    /// For the literal fragment the outcome is pinned: whenever any
    /// literal pattern matches some non-empty prefix, a token comes back
    /// (an error only when nothing literal matches), and with no regular
    /// expressions among the patterns the token covers the longest
    /// literal-matching prefix and takes the first matching pattern's
    /// kind.  What a regular expression accepts stays opaque, so those
    /// matches are only described, never owed.
    pub fn next_token(&mut self) -> (r: Option<Result<Token, TokenNotMatchedError>>)
        requires
            old(self).wf(),
        ensures
            final(self).wf(),
            final(self).input@ == old(self).input@,
            final(self).patterns@ == old(self).patterns@,
            some_literal_match(old(self).patterns@, old(self).input@, old(self).pos as int)
                ==> (r matches Some(Ok(_))),
            match r {
                None => old(self).pos == old(self).input@.len() && final(self).pos == old(
                    self,
                ).pos,
                Some(Err(_)) => old(self).pos < old(self).input@.len() && final(self).pos == old(
                    self,
                ).pos && !some_literal_match(
                    old(self).patterns@,
                    old(self).input@,
                    old(self).pos as int,
                ),
                Some(Ok(t)) => {
                    &&& old(self).pos < old(self).input@.len()
                    &&& t.value@.len() >= 1
                    &&& final(self).pos == old(self).pos + t.value@.len()
                    &&& final(self).pos <= old(self).input@.len()
                    &&& t.value@ == old(self).input@.subrange(
                        old(self).pos as int,
                        final(self).pos as int,
                    )
                    &&& exists|k: int|
                        0 <= k < old(self).patterns@.len() && (
                        #[trigger] old(self).patterns@[k]).kind == t.kind && (old(
                            self,
                        ).patterns@[k].pattern is Literals ==> literal_match(
                            old(self).patterns@[k].pattern->Literals_0@,
                            t.value@,
                        ))
                    &&& all_literal(old(self).patterns@) ==> forall|len2: int|
                        t.value@.len() < len2 <= old(self).input@.len() - old(self).pos
                            ==> !#[trigger] literal_prefix_match(
                            old(self).patterns@,
                            old(self).input@,
                            old(self).pos as int,
                            len2,
                        )
                    &&& all_literal(old(self).patterns@) ==> exists|k: int|
                        0 <= k < old(self).patterns@.len() && (
                        #[trigger] old(self).patterns@[k]).pattern is Literals && literal_match(
                            old(self).patterns@[k].pattern->Literals_0@,
                            t.value@,
                        ) && t.kind == old(self).patterns@[k].kind && (forall|k2: int|
                            0 <= k2 < k ==> !literal_match(
                                (#[trigger] old(self).patterns@[k2]).pattern->Literals_0@,
                                t.value@,
                            ))
                },
            },
    {
        if self.pos >= self.input.len() {
            proof {
                assert(!some_literal_match(self.patterns@, self.input@, self.pos as int));
            }
            return None;
        }
        let remaining = self.input.len() - self.pos;
        let mut len = remaining;
        while len >= 1
            invariant
                self == old(self),
                self.input@.len() == self.input.len(),
                self.pos < self.input@.len(),
                0 <= len <= self.input@.len() - self.pos,
                forall|len2: int|
                    len < len2 <= self.input@.len() - self.pos
                        ==> !#[trigger] literal_prefix_match(
                        self.patterns@,
                        self.input@,
                        self.pos as int,
                        len2,
                    ),
            decreases len,
        {
            let mut prefix: Vec<char> = Vec::new();
            let mut i: usize = 0;
            while i < len
                invariant
                    0 <= i <= len,
                    self.input@.len() == self.input.len(),
                    self.pos + len <= self.input@.len(),
                    prefix@ == self.input@.subrange(self.pos as int, self.pos + i),
                decreases len - i,
            {
                proof {
                    assert(self.input@.subrange(self.pos as int, self.pos + i + 1)
                        == self.input@.subrange(self.pos as int, self.pos + i).push(
                        self.input@[self.pos + i],
                    ));
                }
                prefix.push(self.input[self.pos + i]);
                i += 1;
            }
            let mut k: usize = 0;
            while k < self.patterns.len()
                invariant
                    self == old(self),
                    self.input@.len() == self.input.len(),
                    self.pos < self.input@.len(),
                    1 <= len <= self.input@.len() - self.pos,
                    prefix@ == self.input@.subrange(self.pos as int, self.pos + len),
                    0 <= k <= self.patterns@.len(),
                    forall|k2: int|
                        0 <= k2 < k ==> ((#[trigger] self.patterns@[k2]).pattern is Literals
                            ==> !literal_match(
                            self.patterns@[k2].pattern->Literals_0@,
                            prefix@,
                        )),
                    forall|len2: int|
                        len < len2 <= old(self).input@.len() - old(self).pos
                            ==> !#[trigger] literal_prefix_match(
                            old(self).patterns@,
                            old(self).input@,
                            old(self).pos as int,
                            len2,
                        ),
                decreases self.patterns@.len() - k,
            {
                match self.patterns[k].match_token(&prefix) {
                    Some(t) => {
                        self.pos = self.pos + len;
                        proof {
                            assert(t.value@ == old(self).input@.subrange(
                                old(self).pos as int,
                                old(self).pos + len,
                            ));
                            assert(self.patterns@[k as int].kind == t.kind);
                            assert(self.patterns@[k as int].pattern is Literals
                                ==> literal_match(
                                self.patterns@[k as int].pattern->Literals_0@,
                                t.value@,
                            ));
                            if all_literal(self.patterns@) {
                                assert(self.patterns@[k as int].pattern is Literals);
                                assert(literal_match(
                                    self.patterns@[k as int].pattern->Literals_0@,
                                    t.value@,
                                ));
                                assert(forall|k2: int|
                                    0 <= k2 < k ==> !literal_match(
                                        (#[trigger] self.patterns@[k2]).pattern->Literals_0@,
                                        t.value@,
                                    ));
                            }
                        }
                        return Some(Ok(t));
                    }
                    None => {}
                }
                k += 1;
            }
            proof {
                assert(!literal_prefix_match(
                    self.patterns@,
                    self.input@,
                    self.pos as int,
                    len as int,
                )) by {
                    if literal_prefix_match(
                        self.patterns@,
                        self.input@,
                        self.pos as int,
                        len as int,
                    ) {
                        let kw = choose|kw: int|
                            0 <= kw < self.patterns@.len() && (
                            #[trigger] self.patterns@[kw]).pattern is Literals && literal_match(
                                self.patterns@[kw].pattern->Literals_0@,
                                self.input@.subrange(self.pos as int, self.pos + len),
                            );
                        assert(!literal_match(
                            self.patterns@[kw].pattern->Literals_0@,
                            prefix@,
                        ));
                    }
                }
            }
            len = len - 1;
        }
        proof {
            assert(!some_literal_match(self.patterns@, self.input@, self.pos as int)) by {
                if some_literal_match(self.patterns@, self.input@, self.pos as int) {
                    let lw = choose|lw: int|
                        1 <= lw <= self.input@.len() - self.pos
                            && #[trigger] literal_prefix_match(
                            self.patterns@,
                            self.input@,
                            self.pos as int,
                            lw,
                        );
                    assert(!literal_prefix_match(
                        self.patterns@,
                        self.input@,
                        self.pos as int,
                        lw,
                    ));
                }
            }
        }
        Some(Err(TokenNotMatchedError {}))
    }
}

} // verus!
