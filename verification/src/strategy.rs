//! The strategy family: the built-in variants, the composite sequence and
//! the foreign bridge, with the two capability operations `normalize` and
//! `decode` specified over sequences of characters.

use vstd::prelude::*;

use crate::config::{ConfigValue, Diagnostics};
use crate::container::{Container, Decoder};
use crate::errors::{ConfigurationError, TransformError};
use crate::foreign::{ForeignCallback, ForeignReply, ForeignValue, PyDecoder, interpret_reply};
use crate::rules::{
    bpe_decode, bpe_decoded, byte_level_decode, byte_level_decoded, concat_all, lemma_skip_step,
    lemma_take_step, lowercase_tokens, lowered_all, metaspace_decode, metaspace_decoded,
    word_piece_decode, word_piece_decoded,
};
use crate::text::{NormalizedString, chars_of, lower_of};

verus! {

// ---------------------------------------------------------------------------
// The variants
// ---------------------------------------------------------------------------

/// The reversible byte-to-unicode decoder. No parameters.
#[derive(Debug)]
pub struct ByteLevel {}

/// Strips a continuation prefix and joins tokens, optionally cleaning up
/// whitespace artifacts around punctuation.
#[derive(Debug)]
pub struct WordPiece {
    pub prefix: String,
    pub cleanup: bool,
}

/// Replaces a space-marker character with a literal space.
#[derive(Debug)]
pub struct Metaspace {
    pub replacement: char,
    pub add_prefix_space: bool,
}

/// Strips an end-of-word suffix from each token and joins with spaces.
#[derive(Debug)]
pub struct BPEDecoder {
    pub suffix: String,
}

/// Case-folds the text buffer in place.
#[derive(Debug)]
pub struct Lowercase;

/// A composite strategy applying its members in order against the same
/// buffer or token stream.
#[derive(Debug)]
pub struct Sequence {
    pub normalizers: Vec<Strategy>,
}

/// One pluggable transformation stage.
#[derive(Debug)]
pub enum Strategy {
    ByteLevel(ByteLevel),
    WordPiece(WordPiece),
    Metaspace(Metaspace),
    BPEDecoder(BPEDecoder),
    Lowercase(Lowercase),
    Sequence(Sequence),
    Foreign(PyDecoder),
}

impl Sequence {
    /// The members, in application order.
    pub open spec fn members(self) -> Seq<Strategy> {
        self.normalizers@
    }

    /// Concatenate strategies into a sequence applied in the given order.
    pub fn new(normalizers: Vec<Strategy>) -> (r: Sequence)
        ensures
            r.members() == normalizers@,
    {
        Sequence { normalizers }
    }
}

// ---------------------------------------------------------------------------
// Which strategies contain a foreign bridge
// ---------------------------------------------------------------------------

/// Whether no foreign bridge occurs anywhere in the strategy. Only such
/// strategies have fully determined operations and a persisted form.
pub open spec fn foreign_free(s: Strategy) -> bool
    decreases s,
{
    match s {
        Strategy::Foreign(_) => false,
        Strategy::Sequence(sq) => foreign_free_all(sq.members()),
        _ => true,
    }
}

pub open spec fn foreign_free_all(ms: Seq<Strategy>) -> bool
    decreases ms,
{
    if ms.len() == 0 {
        true
    } else {
        foreign_free(ms[0]) && foreign_free_all(ms.drop_first())
    }
}

// ---------------------------------------------------------------------------
// normalize: the buffer after a strategy has run
// ---------------------------------------------------------------------------

/// The text after `s` has normalized it. Decoder-only variants (and the
/// foreign bridge, which only decodes) leave the buffer untouched.
pub open spec fn applied(s: Strategy, text: Seq<char>) -> Seq<char>
    decreases s,
{
    match s {
        Strategy::Lowercase(_) => lower_of(text),
        Strategy::Sequence(sq) => applied_all(sq.members(), text),
        _ => text,
    }
}

/// The text after every member has run, in order.
pub open spec fn applied_all(ms: Seq<Strategy>, text: Seq<char>) -> Seq<char>
    decreases ms,
{
    if ms.len() == 0 {
        text
    } else {
        applied_all(ms.drop_first(), applied(ms[0], text))
    }
}

/// An empty sequence normalizes to the unchanged text.
pub proof fn lemma_empty_sequence_identity(sq: Sequence, text: Seq<char>)
    requires
        sq.members().len() == 0,
    ensures
        applied(Strategy::Sequence(sq), text) == text,
{
}

/// A two-member sequence normalizes as its first member followed by its
/// second.
pub proof fn lemma_sequence_composes(sq: Sequence, a: Strategy, b: Strategy, text: Seq<char>)
    requires
        sq.members() == seq![a, b],
    ensures
        applied(Strategy::Sequence(sq), text) == applied(b, applied(a, text)),
{
    let ms = sq.members();
    assert(ms[0] == a);
    assert(ms.drop_first() =~= seq![b]);
    assert(applied_all(ms, text) == applied_all(seq![b], applied(a, text)));
    assert(seq![b][0] == b);
    assert(seq![b].drop_first() =~= Seq::<Strategy>::empty());
    assert(applied_all(Seq::<Strategy>::empty(), applied(b, applied(a, text))) == applied(
        b,
        applied(a, text),
    ));
}

impl Strategy {
    /// Run the strategy against the buffer. Built-in strategies never
    /// fail; the result mirrors the capability contract, and a sequence
    /// stops at its first failure without rolling earlier mutations back.
    #[verifier::loop_isolation(false)]
    pub fn normalize(&self, text: &mut NormalizedString) -> (r: Result<(), TransformError>)
        ensures
            r is Ok,
            final(text)@ == applied(*self, old(text)@),
        decreases *self,
    {
        match self {
            Strategy::Lowercase(_) => {
                text.lowercase();
                Ok(())
            },
            Strategy::Sequence(sq) => {
                let ghost t0 = text@;
                let ghost ms = sq.members();
                let mut i: usize = 0;
                proof {
                    assert(ms.skip(0) =~= ms);
                }
                while i < sq.normalizers.len()
                    invariant
                        i <= ms.len(),
                        ms == sq.members(),
                        applied_all(ms, t0) == applied_all(ms.skip(i as int), text@),
                        forall|k: int| 0 <= k < ms.len() ==> ms[k] == sq.normalizers@[k],
                    decreases ms.len() - i,
                {
                    proof {
                        lemma_skip_step(ms, i as int);
                        assert(*self == Strategy::Sequence(*sq));
                        assert(decreases_to!(*self => self->Sequence_0));
                        assert(decreases_to!(*sq => sq.normalizers));
                        assert(decreases_to!(sq.normalizers => sq.normalizers@));
                        assert(decreases_to!(sq.normalizers@ => sq.normalizers@[i as int]));
                        assert(decreases_to!(*self => sq.normalizers@[i as int]));
                    }
                    match sq.normalizers[i].normalize(text) {
                        Ok(()) => (),
                        Err(e) => {
                            return Err(e);
                        },
                    }
                    i = i + 1;
                }
                proof {
                    assert(ms.skip(ms.len() as int) =~= Seq::<Strategy>::empty());
                }
                Ok(())
            },
            _ => Ok(()),
        }
    }
}

impl Sequence {
    /// Run every member against the same buffer, in order; the first
    /// failure stops the run and propagates, leaving earlier mutations in
    /// place.
    #[verifier::loop_isolation(false)]
    pub fn normalize(&self, normalized: &mut NormalizedString) -> (r: Result<(), TransformError>)
        ensures
            r is Ok,
            final(normalized)@ == applied_all(self.members(), old(normalized)@),
    {
        let ghost t0 = normalized@;
        let ghost ms = self.members();
        let mut i: usize = 0;
        proof {
            assert(ms.skip(0) =~= ms);
        }
        while i < self.normalizers.len()
            invariant
                i <= ms.len(),
                ms == self.members(),
                applied_all(ms, t0) == applied_all(ms.skip(i as int), normalized@),
            decreases ms.len() - i,
        {
            proof {
                lemma_skip_step(ms, i as int);
            }
            match self.normalizers[i].normalize(normalized) {
                Ok(()) => (),
                Err(e) => {
                    return Err(e);
                },
            }
            i = i + 1;
        }
        proof {
            assert(ms.skip(ms.len() as int) =~= Seq::<Strategy>::empty());
        }
        Ok(())
    }
}

impl Lowercase {
    /// Case-fold the whole buffer in place.
    #[verifier::loop_isolation(false)]
    pub fn normalize(&self, normalized: &mut NormalizedString) -> (r: Result<(), TransformError>)
        ensures
            r is Ok,
            final(normalized)@ == lower_of(old(normalized)@),
    {
        normalized.lowercase();
        Ok(())
    }
}

// ---------------------------------------------------------------------------
// decode: tokens through a strategy
// ---------------------------------------------------------------------------

/// One decoding step: a strategy turns the current token stream into the
/// next one. Concrete decoders produce a single joined token; Lowercase
/// folds each token; a sequence chains its members; the foreign bridge is
/// left uninterpreted here, since its result is the callback's.
pub open spec fn step(s: Strategy, tokens: Seq<Seq<char>>) -> Seq<Seq<char>>
    decreases s,
{
    match s {
        Strategy::ByteLevel(_) => seq![byte_level_decoded(concat_all(tokens))],
        Strategy::WordPiece(w) => seq![word_piece_decoded(tokens, w.prefix@, w.cleanup)],
        Strategy::Metaspace(m) => seq![metaspace_decoded(tokens, m.replacement, m.add_prefix_space)],
        Strategy::BPEDecoder(b) => seq![bpe_decoded(tokens, b.suffix@)],
        Strategy::Lowercase(_) => lowered_all(tokens),
        Strategy::Sequence(sq) => step_all(sq.members(), tokens),
        Strategy::Foreign(_) => tokens,
    }
}

pub open spec fn step_all(ms: Seq<Strategy>, tokens: Seq<Seq<char>>) -> Seq<Seq<char>>
    decreases ms,
{
    if ms.len() == 0 {
        tokens
    } else {
        step_all(ms.drop_first(), step(ms[0], tokens))
    }
}

/// The full decoding of a token list: the final token stream, concatenated.
pub open spec fn decoded(s: Strategy, tokens: Seq<Seq<char>>) -> Seq<char> {
    concat_all(step(s, tokens))
}

proof fn lemma_notes_prefix_refl(a: Seq<Seq<char>>)
    ensures
        a.is_prefix_of(a),
{
    assert(a.subrange(0, a.len() as int) =~= a);
}

proof fn lemma_notes_prefix_push(a: Seq<Seq<char>>, d: Seq<char>)
    ensures
        a.is_prefix_of(a.push(d)),
{
    assert(a.push(d).subrange(0, a.len() as int) =~= a);
}

proof fn lemma_notes_prefix_trans(a: Seq<Seq<char>>, b: Seq<Seq<char>>, c: Seq<Seq<char>>)
    requires
        a.is_prefix_of(b),
        b.is_prefix_of(c),
    ensures
        a.is_prefix_of(c),
{
    assert(a =~= c.subrange(0, a.len() as int));
}

impl Strategy {
    /// One decoding step, executed. For a foreign-free strategy the result
    /// is exactly [`step`] and the diagnostic channel stays untouched. At
    /// a foreign bridge the outcome is [`interpret_reply`]'s reading of
    /// the callback's reply: a single token on success with nothing
    /// reported, or one of the two fixed transform errors — the
    /// call-failed one only ever together with the failure's detail
    /// appended to the diagnostic channel, so it is not silently lost.
    /// Whatever the strategy, the channel only ever grows, and every
    /// error is one of those two.
    #[verifier::loop_isolation(false)]
    pub fn decode_step<C: ForeignCallback>(
        &self,
        env: &C,
        diag: &mut Diagnostics,
        tokens: Vec<String>,
    ) -> (r: Result<Vec<String>, TransformError>)
        ensures
            foreign_free(*self) ==> (r matches Ok(out) && out.deep_view() == step(
                *self,
                tokens.deep_view(),
            ) && final(diag)@ == old(diag)@),
            *self matches Strategy::Foreign(_) ==> match r {
                Ok(out) => out@.len() == 1 && final(diag)@ == old(diag)@,
                Err(e) => (e == TransformError::ForeignCallFailed && (exists|d: Seq<char>|
                    final(diag)@ == old(diag)@.push(d))) || (e
                    == TransformError::ForeignNotString && final(diag)@ == old(diag)@),
            },
            old(diag)@.is_prefix_of(final(diag)@),
            r matches Err(e) ==> (e == TransformError::ForeignCallFailed || e
                == TransformError::ForeignNotString),
        decreases *self,
    {
        match self {
            Strategy::ByteLevel(_) => {
                let s = byte_level_decode(&tokens);
                let mut out: Vec<String> = Vec::new();
                out.push(s);
                proof {
                    assert(out.deep_view() =~= step(*self, tokens.deep_view()));
                    lemma_notes_prefix_refl(old(diag)@);
                }
                Ok(out)
            },
            Strategy::WordPiece(w) => {
                let s = word_piece_decode(&tokens, w.prefix.as_str(), w.cleanup);
                let mut out: Vec<String> = Vec::new();
                out.push(s);
                proof {
                    assert(out.deep_view() =~= step(*self, tokens.deep_view()));
                    lemma_notes_prefix_refl(old(diag)@);
                }
                Ok(out)
            },
            Strategy::Metaspace(m) => {
                let s = metaspace_decode(&tokens, m.replacement, m.add_prefix_space);
                let mut out: Vec<String> = Vec::new();
                out.push(s);
                proof {
                    assert(out.deep_view() =~= step(*self, tokens.deep_view()));
                    lemma_notes_prefix_refl(old(diag)@);
                }
                Ok(out)
            },
            Strategy::BPEDecoder(b) => {
                let s = bpe_decode(&tokens, b.suffix.as_str());
                let mut out: Vec<String> = Vec::new();
                out.push(s);
                proof {
                    assert(out.deep_view() =~= step(*self, tokens.deep_view()));
                    lemma_notes_prefix_refl(old(diag)@);
                }
                Ok(out)
            },
            Strategy::Lowercase(_) => {
                let out = lowercase_tokens(&tokens);
                proof {
                    lemma_notes_prefix_refl(old(diag)@);
                }
                Ok(out)
            },
            Strategy::Sequence(sq) => {
                let ghost ms = sq.members();
                let ghost t0 = tokens.deep_view();
                let mut cur = tokens;
                let mut i: usize = 0;
                proof {
                    assert(ms.skip(0) =~= ms);
                    lemma_notes_prefix_refl(old(diag)@);
                }
                while i < sq.normalizers.len()
                    invariant
                        i <= ms.len(),
                        ms == sq.members(),
                        forall|k: int| 0 <= k < ms.len() ==> ms[k] == sq.normalizers@[k],
                        old(diag)@.is_prefix_of(diag@),
                        foreign_free_all(ms) ==> (foreign_free_all(ms.skip(i as int)) && step_all(
                            ms,
                            t0,
                        ) == step_all(ms.skip(i as int), cur.deep_view()) && diag@ == old(diag)@),
                    decreases ms.len() - i,
                {
                    proof {
                        lemma_skip_step(ms, i as int);
                        assert(*self == Strategy::Sequence(*sq));
                        assert(decreases_to!(*self => self->Sequence_0));
                        assert(decreases_to!(*sq => sq.normalizers));
                        assert(decreases_to!(sq.normalizers => sq.normalizers@));
                        assert(decreases_to!(sq.normalizers@ => sq.normalizers@[i as int]));
                        assert(decreases_to!(*self => sq.normalizers@[i as int]));
                    }
                    let ghost dprev = diag@;
                    cur = match sq.normalizers[i].decode_step(env, diag, cur) {
                        Ok(next) => next,
                        Err(e) => {
                            proof {
                                lemma_notes_prefix_trans(old(diag)@, dprev, diag@);
                                if foreign_free(*self) {
                                    assert(foreign_free_all(ms.skip(i as int)));
                                    assert(foreign_free(ms[i as int]));
                                }
                            }
                            return Err(e);
                        },
                    };
                    proof {
                        lemma_notes_prefix_trans(old(diag)@, dprev, diag@);
                    }
                    i = i + 1;
                }
                proof {
                    assert(ms.skip(ms.len() as int) =~= Seq::<Strategy>::empty());
                }
                Ok(cur)
            },
            Strategy::Foreign(py) => {
                let ghost d0 = diag@;
                let reply = env.invoke(py.handle, "decode", &tokens);
                let ghost greply = reply;
                match interpret_reply(reply, diag) {
                    Ok(s) => {
                        proof {
                            lemma_notes_prefix_refl(d0);
                        }
                        let mut out: Vec<String> = Vec::new();
                        out.push(s);
                        Ok(out)
                    },
                    Err(e) => {
                        proof {
                            match greply {
                                ForeignReply::Value(ForeignValue::Text(_)) => {
                                    assert(false);
                                },
                                ForeignReply::Value(ForeignValue::Other) => {
                                    lemma_notes_prefix_refl(d0);
                                },
                                ForeignReply::Failure(detail) => {
                                    assert(diag@ == d0.push(detail@));
                                    lemma_notes_prefix_push(d0, detail@);
                                },
                            }
                        }
                        Err(e)
                    },
                }
            },
        }
    }
}

// ---------------------------------------------------------------------------
// Construction from named configuration values
// ---------------------------------------------------------------------------

/// The configuration pairs actually supplied.
pub open spec fn config_pairs(kwargs: Option<Vec<(String, ConfigValue)>>) -> Seq<
    (String, ConfigValue),
> {
    match kwargs {
        Option::None => Seq::empty(),
        Option::Some(v) => v@,
    }
}

/// Whether `key` reads as the given name.
fn key_is(key: &String, name: &str) -> (r: bool)
    ensures
        r == (key@ == name@),
{
    *key == String::from_str(name)
}

/// What a WordPiece configuration means: the prefix and cleanup values
/// after every pair is processed in order, together with the ignored keys,
/// or the error raised by the first wrong-typed known key.
pub open spec fn word_piece_config(pairs: Seq<(String, ConfigValue)>) -> Result<
    (Seq<char>, bool, Seq<Seq<char>>),
    ConfigurationError,
>
    decreases pairs.len(),
{
    if pairs.len() == 0 {
        Ok(("##"@, true, Seq::empty()))
    } else {
        match word_piece_config(pairs.drop_last()) {
            Err(e) => Err(e),
            Ok((prefix, cleanup, ignored)) => {
                let kv = pairs.last();
                if kv.0@ == "prefix"@ {
                    match kv.1 {
                        ConfigValue::Text(s) => Ok((s@, cleanup, ignored)),
                        _ => Err(ConfigurationError::WrongValueType),
                    }
                } else if kv.0@ == "cleanup"@ {
                    match kv.1 {
                        ConfigValue::Flag(b) => Ok((prefix, b, ignored)),
                        _ => Err(ConfigurationError::WrongValueType),
                    }
                } else {
                    Ok((prefix, cleanup, ignored.push(kv.0@)))
                }
            },
        }
    }
}

/// What a Metaspace configuration means. The replacement must be exactly
/// one character.
pub open spec fn metaspace_config(pairs: Seq<(String, ConfigValue)>) -> Result<
    (char, bool, Seq<Seq<char>>),
    ConfigurationError,
>
    decreases pairs.len(),
{
    if pairs.len() == 0 {
        Ok(('\u{2581}', true, Seq::empty()))
    } else {
        match metaspace_config(pairs.drop_last()) {
            Err(e) => Err(e),
            Ok((replacement, add_prefix_space, ignored)) => {
                let kv = pairs.last();
                if kv.0@ == "replacement"@ {
                    match kv.1 {
                        ConfigValue::Text(s) => if s@.len() == 1 {
                            Ok((s@[0], add_prefix_space, ignored))
                        } else {
                            Err(ConfigurationError::ReplacementNotOneChar)
                        },
                        _ => Err(ConfigurationError::WrongValueType),
                    }
                } else if kv.0@ == "add_prefix_space"@ {
                    match kv.1 {
                        ConfigValue::Flag(b) => Ok((replacement, b, ignored)),
                        _ => Err(ConfigurationError::WrongValueType),
                    }
                } else {
                    Ok((replacement, add_prefix_space, ignored.push(kv.0@)))
                }
            },
        }
    }
}

/// What a BPEDecoder configuration means.
pub open spec fn bpe_config(pairs: Seq<(String, ConfigValue)>) -> Result<
    (Seq<char>, Seq<Seq<char>>),
    ConfigurationError,
>
    decreases pairs.len(),
{
    if pairs.len() == 0 {
        Ok(("</w>"@, Seq::empty()))
    } else {
        match bpe_config(pairs.drop_last()) {
            Err(e) => Err(e),
            Ok((suffix, ignored)) => {
                let kv = pairs.last();
                if kv.0@ == "suffix"@ {
                    match kv.1 {
                        ConfigValue::Text(s) => Ok((s@, ignored)),
                        _ => Err(ConfigurationError::WrongValueType),
                    }
                } else {
                    Ok((suffix, ignored.push(kv.0@)))
                }
            },
        }
    }
}

proof fn lemma_word_piece_config_err(pairs: Seq<(String, ConfigValue)>, k: int)
    requires
        0 <= k <= pairs.len(),
        word_piece_config(pairs.take(k)) is Err,
    ensures
        word_piece_config(pairs) == word_piece_config(pairs.take(k)),
    decreases pairs.len(),
{
    if pairs.len() == k {
        assert(pairs.take(k) =~= pairs);
    } else {
        assert(pairs.drop_last().take(k) =~= pairs.take(k));
        lemma_word_piece_config_err(pairs.drop_last(), k);
    }
}

proof fn lemma_metaspace_config_err(pairs: Seq<(String, ConfigValue)>, k: int)
    requires
        0 <= k <= pairs.len(),
        metaspace_config(pairs.take(k)) is Err,
    ensures
        metaspace_config(pairs) == metaspace_config(pairs.take(k)),
    decreases pairs.len(),
{
    if pairs.len() == k {
        assert(pairs.take(k) =~= pairs);
    } else {
        assert(pairs.drop_last().take(k) =~= pairs.take(k));
        lemma_metaspace_config_err(pairs.drop_last(), k);
    }
}

proof fn lemma_bpe_config_err(pairs: Seq<(String, ConfigValue)>, k: int)
    requires
        0 <= k <= pairs.len(),
        bpe_config(pairs.take(k)) is Err,
    ensures
        bpe_config(pairs) == bpe_config(pairs.take(k)),
    decreases pairs.len(),
{
    if pairs.len() == k {
        assert(pairs.take(k) =~= pairs);
    } else {
        assert(pairs.drop_last().take(k) =~= pairs.take(k));
        lemma_bpe_config_err(pairs.drop_last(), k);
    }
}

/// Report each ignored key on the diagnostic channel.
fn report_ignored(diag: &mut Diagnostics, ignored: Vec<String>)
    ensures
        final(diag)@ == old(diag)@ + ignored.deep_view(),
{
    let ghost iv = ignored.deep_view();
    let mut k: usize = 0;
    proof {
        assert(old(diag)@ + iv.take(0) =~= old(diag)@);
    }
    while k < ignored.len()
        invariant
            k <= iv.len(),
            iv == ignored.deep_view(),
            diag@ == old(diag)@ + iv.take(k as int),
        decreases iv.len() - k,
    {
        proof {
            lemma_take_step(iv, k as int);
            assert((old(diag)@ + iv.take(k as int)).push(iv[k as int]) =~= old(diag)@ + iv.take(
                k + 1,
            ));
        }
        diag.report(ignored[k].clone());
        k = k + 1;
    }
    proof {
        assert(iv.take(iv.len() as int) =~= iv);
    }
}

impl ByteLevel {
    /// A ByteLevel decoder takes no parameters.
    pub fn new() -> (r: (ByteLevel, Decoder))
        ensures
            r.1.strategy() == Strategy::ByteLevel(ByteLevel {  }),
            r.1.decoder is Owned,
    {
        (ByteLevel {  }, Decoder { decoder: Container::Owned(Strategy::ByteLevel(ByteLevel {  })) })
    }
}

impl WordPiece {
    /// Build a WordPiece decoder from named configuration values
    /// (`prefix`, default `"##"`; `cleanup`, default true). Unrecognized
    /// keys are ignored and reported on the diagnostic channel; a
    /// wrong-typed known value is a configuration error, reported before
    /// anything else happens.
    #[verifier::loop_isolation(false)]
    pub fn new(kwargs: Option<Vec<(String, ConfigValue)>>, diag: &mut Diagnostics) -> (r: Result<
        (WordPiece, Decoder),
        ConfigurationError,
    >)
        ensures
            match word_piece_config(config_pairs(kwargs)) {
                Ok(cfg) => r matches Ok(p) && p.0.prefix@ == cfg.0 && p.0.cleanup == cfg.1 && (
                p.1.strategy() matches Strategy::WordPiece(w) && w.prefix@ == cfg.0 && w.cleanup
                    == cfg.1) && p.1.decoder is Owned && final(diag)@ == old(diag)@ + cfg.2,
                Err(e) => r matches Err(e2) && e2 == e && final(diag)@ == old(diag)@,
            },
    {
        let ghost pairs = config_pairs(kwargs);
        let mut prefix = String::from_str("##");
        let mut cleanup = true;
        let mut ignored: Vec<String> = Vec::new();
        match kwargs {
            Option::None => {
                proof {
                    assert(pairs =~= Seq::<(String, ConfigValue)>::empty());
                    assert(ignored.deep_view() =~= Seq::<Seq<char>>::empty());
                }
            },
            Option::Some(kw) => {
                let mut i: usize = 0;
                proof {
                    assert(pairs.take(0) =~= Seq::<(String, ConfigValue)>::empty());
                    assert(ignored.deep_view() =~= Seq::<Seq<char>>::empty());
                }
                while i < kw.len()
                    invariant
                        i <= kw@.len(),
                        pairs == kw@,
                        word_piece_config(pairs.take(i as int)) == Ok::<
                            (Seq<char>, bool, Seq<Seq<char>>),
                            ConfigurationError,
                        >((prefix@, cleanup, ignored.deep_view())),
                        diag@ == old(diag)@,
                    decreases kw@.len() - i,
                {
                    proof {
                        lemma_take_step(pairs, i as int);
                    }
                    let ghost before = ignored.deep_view();
                    if key_is(&kw[i].0, "prefix") {
                        match &kw[i].1 {
                            ConfigValue::Text(s) => {
                                prefix = s.clone();
                            },
                            _ => {
                                proof {
                                    lemma_word_piece_config_err(pairs, i + 1);
                                }
                                return Err(ConfigurationError::WrongValueType);
                            },
                        }
                    } else if key_is(&kw[i].0, "cleanup") {
                        match &kw[i].1 {
                            ConfigValue::Flag(b) => {
                                cleanup = *b;
                            },
                            _ => {
                                proof {
                                    lemma_word_piece_config_err(pairs, i + 1);
                                }
                                return Err(ConfigurationError::WrongValueType);
                            },
                        }
                    } else {
                        ignored.push(kw[i].0.clone());
                        proof {
                            assert(ignored.deep_view() =~= before.push(pairs[i as int].0@));
                        }
                    }
                    i = i + 1;
                }
                proof {
                    assert(pairs.take(kw@.len() as int) =~= pairs);
                }
            },
        }
        let ghost ig = ignored.deep_view();
        report_ignored(diag, ignored);
        proof {
            assert(old(diag)@ + Seq::<Seq<char>>::empty() =~= old(diag)@);
        }
        let wp = WordPiece { prefix: prefix.clone(), cleanup };
        let held = WordPiece { prefix, cleanup };
        Ok((wp, Decoder { decoder: Container::Owned(Strategy::WordPiece(held)) }))
    }
}

impl Metaspace {
    /// Build a Metaspace decoder from named configuration values
    /// (`replacement`, default `'\u{2581}'`; `add_prefix_space`, default
    /// true). A replacement that is not exactly one character is a
    /// configuration error; no decode is ever attempted with it.
    #[verifier::loop_isolation(false)]
    pub fn new(kwargs: Option<Vec<(String, ConfigValue)>>, diag: &mut Diagnostics) -> (r: Result<
        (Metaspace, Decoder),
        ConfigurationError,
    >)
        ensures
            match metaspace_config(config_pairs(kwargs)) {
                Ok(cfg) => r matches Ok(p) && p.0.replacement == cfg.0 && p.0.add_prefix_space
                    == cfg.1 && (p.1.strategy() matches Strategy::Metaspace(m) && m.replacement
                    == cfg.0 && m.add_prefix_space == cfg.1) && p.1.decoder is Owned && final(
                    diag)@ == old(diag)@ + cfg.2,
                Err(e) => r matches Err(e2) && e2 == e && final(diag)@ == old(diag)@,
            },
    {
        let ghost pairs = config_pairs(kwargs);
        let mut replacement: char = '\u{2581}';
        let mut add_prefix_space = true;
        let mut ignored: Vec<String> = Vec::new();
        match kwargs {
            Option::None => {
                proof {
                    assert(pairs =~= Seq::<(String, ConfigValue)>::empty());
                    assert(ignored.deep_view() =~= Seq::<Seq<char>>::empty());
                }
            },
            Option::Some(kw) => {
                let mut i: usize = 0;
                proof {
                    assert(pairs.take(0) =~= Seq::<(String, ConfigValue)>::empty());
                    assert(ignored.deep_view() =~= Seq::<Seq<char>>::empty());
                }
                while i < kw.len()
                    invariant
                        i <= kw@.len(),
                        pairs == kw@,
                        metaspace_config(pairs.take(i as int)) == Ok::<
                            (char, bool, Seq<Seq<char>>),
                            ConfigurationError,
                        >((replacement, add_prefix_space, ignored.deep_view())),
                        diag@ == old(diag)@,
                    decreases kw@.len() - i,
                {
                    proof {
                        lemma_take_step(pairs, i as int);
                    }
                    let ghost before = ignored.deep_view();
                    if key_is(&kw[i].0, "replacement") {
                        match &kw[i].1 {
                            ConfigValue::Text(s) => {
                                let cs = chars_of(s.as_str());
                                if cs.len() == 1 {
                                    replacement = cs[0];
                                } else {
                                    proof {
                                        lemma_metaspace_config_err(pairs, i + 1);
                                    }
                                    return Err(ConfigurationError::ReplacementNotOneChar);
                                }
                            },
                            _ => {
                                proof {
                                    lemma_metaspace_config_err(pairs, i + 1);
                                }
                                return Err(ConfigurationError::WrongValueType);
                            },
                        }
                    } else if key_is(&kw[i].0, "add_prefix_space") {
                        match &kw[i].1 {
                            ConfigValue::Flag(b) => {
                                add_prefix_space = *b;
                            },
                            _ => {
                                proof {
                                    lemma_metaspace_config_err(pairs, i + 1);
                                }
                                return Err(ConfigurationError::WrongValueType);
                            },
                        }
                    } else {
                        ignored.push(kw[i].0.clone());
                        proof {
                            assert(ignored.deep_view() =~= before.push(pairs[i as int].0@));
                        }
                    }
                    i = i + 1;
                }
                proof {
                    assert(pairs.take(kw@.len() as int) =~= pairs);
                }
            },
        }
        let ghost ig = ignored.deep_view();
        report_ignored(diag, ignored);
        proof {
            assert(old(diag)@ + Seq::<Seq<char>>::empty() =~= old(diag)@);
        }
        let ms = Metaspace { replacement, add_prefix_space };
        let held = Metaspace { replacement, add_prefix_space };
        Ok((ms, Decoder { decoder: Container::Owned(Strategy::Metaspace(held)) }))
    }
}

impl BPEDecoder {
    /// Build a BPEDecoder from named configuration values (`suffix`,
    /// default `"</w>"`).
    #[verifier::loop_isolation(false)]
    pub fn new(kwargs: Option<Vec<(String, ConfigValue)>>, diag: &mut Diagnostics) -> (r: Result<
        (BPEDecoder, Decoder),
        ConfigurationError,
    >)
        ensures
            match bpe_config(config_pairs(kwargs)) {
                Ok(cfg) => r matches Ok(p) && p.0.suffix@ == cfg.0 && (
                p.1.strategy() matches Strategy::BPEDecoder(b) && b.suffix@ == cfg.0)
                    && p.1.decoder is Owned && final(diag)@ == old(diag)@ + cfg.1,
                Err(e) => r matches Err(e2) && e2 == e && final(diag)@ == old(diag)@,
            },
    {
        let ghost pairs = config_pairs(kwargs);
        let mut suffix = String::from_str("</w>");
        let mut ignored: Vec<String> = Vec::new();
        match kwargs {
            Option::None => {
                proof {
                    assert(pairs =~= Seq::<(String, ConfigValue)>::empty());
                    assert(ignored.deep_view() =~= Seq::<Seq<char>>::empty());
                }
            },
            Option::Some(kw) => {
                let mut i: usize = 0;
                proof {
                    assert(pairs.take(0) =~= Seq::<(String, ConfigValue)>::empty());
                    assert(ignored.deep_view() =~= Seq::<Seq<char>>::empty());
                }
                while i < kw.len()
                    invariant
                        i <= kw@.len(),
                        pairs == kw@,
                        bpe_config(pairs.take(i as int)) == Ok::<
                            (Seq<char>, Seq<Seq<char>>),
                            ConfigurationError,
                        >((suffix@, ignored.deep_view())),
                        diag@ == old(diag)@,
                    decreases kw@.len() - i,
                {
                    proof {
                        lemma_take_step(pairs, i as int);
                    }
                    let ghost before = ignored.deep_view();
                    if key_is(&kw[i].0, "suffix") {
                        match &kw[i].1 {
                            ConfigValue::Text(s) => {
                                suffix = s.clone();
                            },
                            _ => {
                                proof {
                                    lemma_bpe_config_err(pairs, i + 1);
                                }
                                return Err(ConfigurationError::WrongValueType);
                            },
                        }
                    } else {
                        ignored.push(kw[i].0.clone());
                        proof {
                            assert(ignored.deep_view() =~= before.push(pairs[i as int].0@));
                        }
                    }
                    i = i + 1;
                }
                proof {
                    assert(pairs.take(kw@.len() as int) =~= pairs);
                }
            },
        }
        let ghost ig = ignored.deep_view();
        report_ignored(diag, ignored);
        proof {
            assert(old(diag)@ + Seq::<Seq<char>>::empty() =~= old(diag)@);
        }
        let bp = BPEDecoder { suffix: suffix.clone() };
        let held = BPEDecoder { suffix };
        Ok((bp, Decoder { decoder: Container::Owned(Strategy::BPEDecoder(held)) }))
    }
}

// ---------------------------------------------------------------------------
// The mathematical view of a strategy
// ---------------------------------------------------------------------------

/// The mathematical model of a strategy: its configuration as plain
/// sequences and scalars. Two strategies with the same view behave the
/// same, and the persisted form determines exactly this view.
pub enum StrategyView {
    ByteLevel,
    WordPiece { prefix: Seq<char>, cleanup: bool },
    Metaspace { replacement: char, add_prefix_space: bool },
    BPEDecoder { suffix: Seq<char> },
    Lowercase,
    Sequence(Seq<StrategyView>),
    Foreign(u64),
}

pub open spec fn strategy_view(s: Strategy) -> StrategyView
    decreases s,
{
    match s {
        Strategy::ByteLevel(_) => StrategyView::ByteLevel,
        Strategy::WordPiece(w) => (StrategyView::WordPiece {
            prefix: w.prefix@,
            cleanup: w.cleanup,
        }),
        Strategy::Metaspace(m) => (StrategyView::Metaspace {
            replacement: m.replacement,
            add_prefix_space: m.add_prefix_space,
        }),
        Strategy::BPEDecoder(b) => (StrategyView::BPEDecoder { suffix: b.suffix@ }),
        Strategy::Lowercase(_) => StrategyView::Lowercase,
        Strategy::Sequence(sq) => StrategyView::Sequence(views_of(sq.members())),
        Strategy::Foreign(py) => StrategyView::Foreign(py.handle),
    }
}

pub open spec fn views_of(ms: Seq<Strategy>) -> Seq<StrategyView>
    decreases ms,
{
    if ms.len() == 0 {
        Seq::empty()
    } else {
        seq![strategy_view(ms[0])] + views_of(ms.drop_first())
    }
}

impl View for Strategy {
    type V = StrategyView;

    open spec fn view(&self) -> StrategyView {
        strategy_view(*self)
    }
}

/// Whether a view contains no foreign bridge.
pub open spec fn view_foreign_free(v: StrategyView) -> bool
    decreases v,
{
    match v {
        StrategyView::Foreign(_) => false,
        StrategyView::Sequence(vs) => view_foreign_free_all(vs),
        _ => true,
    }
}

pub open spec fn view_foreign_free_all(vs: Seq<StrategyView>) -> bool
    decreases vs,
{
    if vs.len() == 0 {
        true
    } else {
        view_foreign_free(vs[0]) && view_foreign_free_all(vs.drop_first())
    }
}

/// A strategy contains a foreign bridge exactly when its view does.
pub proof fn lemma_foreign_free_view(s: Strategy)
    ensures
        foreign_free(s) == view_foreign_free(s@),
    decreases s,
{
    match s {
        Strategy::Sequence(sq) => {
            lemma_foreign_free_view_all(sq.members());
        },
        _ => {},
    }
}

pub proof fn lemma_foreign_free_view_all(ms: Seq<Strategy>)
    ensures
        foreign_free_all(ms) == view_foreign_free_all(views_of(ms)),
    decreases ms,
{
    if ms.len() == 0 {
    } else {
        lemma_foreign_free_view(ms[0]);
        lemma_foreign_free_view_all(ms.drop_first());
        assert(views_of(ms)[0] == strategy_view(ms[0]));
        assert(views_of(ms).drop_first() =~= views_of(ms.drop_first()));
    }
}

/// The view determines behavior: two strategies with the same view
/// normalize and decode identically, and contain a foreign bridge alike.
pub proof fn lemma_view_determines_behavior(
    s1: Strategy,
    s2: Strategy,
    text: Seq<char>,
    tokens: Seq<Seq<char>>,
)
    requires
        s1@ == s2@,
    ensures
        applied(s1, text) == applied(s2, text),
        step(s1, tokens) == step(s2, tokens),
        foreign_free(s1) == foreign_free(s2),
    decreases s1,
{
    match s1 {
        Strategy::Sequence(sq1) => {
            match s2 {
                Strategy::Sequence(sq2) => {
                    lemma_view_determines_behavior_all(
                        sq1.members(),
                        sq2.members(),
                        text,
                        tokens,
                    );
                },
                _ => {},
            }
        },
        _ => {},
    }
}

pub proof fn lemma_view_determines_behavior_all(
    ms1: Seq<Strategy>,
    ms2: Seq<Strategy>,
    text: Seq<char>,
    tokens: Seq<Seq<char>>,
)
    requires
        views_of(ms1) == views_of(ms2),
    ensures
        applied_all(ms1, text) == applied_all(ms2, text),
        step_all(ms1, tokens) == step_all(ms2, tokens),
        foreign_free_all(ms1) == foreign_free_all(ms2),
    decreases ms1,
{
    assert(views_of(ms1).len() == ms1.len()) by {
        lemma_views_of_len(ms1);
    }
    assert(views_of(ms2).len() == ms2.len()) by {
        lemma_views_of_len(ms2);
    }
    if ms1.len() == 0 {
    } else {
        assert(views_of(ms1)[0] == strategy_view(ms1[0]));
        assert(views_of(ms2)[0] == strategy_view(ms2[0]));
        assert(views_of(ms1).drop_first() =~= views_of(ms1.drop_first()));
        assert(views_of(ms2).drop_first() =~= views_of(ms2.drop_first()));
        lemma_view_determines_behavior(ms1[0], ms2[0], text, tokens);
        lemma_view_determines_behavior_all(
            ms1.drop_first(),
            ms2.drop_first(),
            applied(ms1[0], text),
            step(ms1[0], tokens),
        );
    }
}

pub proof fn lemma_views_of_len(ms: Seq<Strategy>)
    ensures
        views_of(ms).len() == ms.len(),
    decreases ms,
{
    if ms.len() == 0 {
    } else {
        lemma_views_of_len(ms.drop_first());
    }
}

} // verus!
