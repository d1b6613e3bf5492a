//! The persistence bridge: a self-describing byte form for strategies.
//!
//! The form is a tag naming the concrete variant, followed by that
//! variant's configuration; a sequence carries its members recursively.
//! Restoring parses the tag, dispatches to the variant it names, and
//! replaces the container's contents wholesale. The foreign-bridge tag is
//! registered with a serializer that always fails and no deserializer at
//! all. Numbers are eight little-endian bytes; a text is its length
//! followed by one number per character.

use vstd::prelude::*;

use vstd::bytes::{
    lemma_auto_spec_u64_to_from_le_bytes, spec_u64_from_le_bytes, spec_u64_to_le_bytes,
    u64_from_le_bytes, u64_to_le_bytes,
};
use vstd::slice::slice_subrange;

use crate::container::{Container, Decoder};
use crate::errors::SerializationError;
use crate::strategy::{
    ByteLevel, BPEDecoder, Lowercase, Metaspace, Sequence, Strategy, StrategyView, WordPiece,
    foreign_free, foreign_free_all, lemma_foreign_free_view, strategy_view, view_foreign_free,
    view_foreign_free_all, views_of, lemma_views_of_len,
};
use crate::rules::{lemma_skip_step, lemma_take_step};
use crate::text::{chars_of, string_of};

verus! {

// ---------------------------------------------------------------------------
// The encoding, over views
// ---------------------------------------------------------------------------

/// A flag is one byte, zero or one.
pub open spec fn encoded_flag(b: bool) -> Seq<u8> {
    if b {
        seq![1u8]
    } else {
        seq![0u8]
    }
}

/// The characters of a text, one eight-byte number each.
pub open spec fn encoded_chars(s: Seq<char>) -> Seq<u8>
    decreases s.len(),
{
    if s.len() == 0 {
        Seq::empty()
    } else {
        encoded_chars(s.drop_last()) + spec_u64_to_le_bytes(((s.last() as u32) as u64))
    }
}

/// A text: its length, then its characters.
pub open spec fn encoded_text(s: Seq<char>) -> Seq<u8> {
    spec_u64_to_le_bytes(s.len() as u64) + encoded_chars(s)
}

/// The stable tag naming a variant.
pub open spec fn tag_chars(v: StrategyView) -> Seq<char> {
    match v {
        StrategyView::ByteLevel => "ByteLevel"@,
        StrategyView::WordPiece { .. } => "WordPiece"@,
        StrategyView::Metaspace { .. } => "Metaspace"@,
        StrategyView::BPEDecoder { .. } => "BPEDecoder"@,
        StrategyView::Lowercase => "Lowercase"@,
        StrategyView::Sequence(_) => "Sequence"@,
        StrategyView::Foreign(_) => "PyDecoder"@,
    }
}

/// The persisted form of a strategy: its tag, then its configuration.
/// The foreign bridge has no persisted form; its case here is never
/// produced, since persisting it fails.
pub open spec fn encoded(v: StrategyView) -> Seq<u8>
    decreases v,
{
    encoded_text(tag_chars(v)) + match v {
        StrategyView::WordPiece { prefix, cleanup } => encoded_text(prefix) + encoded_flag(cleanup),
        StrategyView::Metaspace { replacement, add_prefix_space } => spec_u64_to_le_bytes(
            ((replacement as u32) as u64),
        ) + encoded_flag(add_prefix_space),
        StrategyView::BPEDecoder { suffix } => encoded_text(suffix),
        StrategyView::Sequence(vs) => spec_u64_to_le_bytes(vs.len() as u64) + encoded_list(vs),
        _ => Seq::empty(),
    }
}

/// The members of a sequence, encoded in order.
pub open spec fn encoded_list(vs: Seq<StrategyView>) -> Seq<u8>
    decreases vs,
{
    if vs.len() == 0 {
        Seq::empty()
    } else {
        encoded(vs[0]) + encoded_list(vs.drop_first())
    }
}

/// The machine bounds under which a view can be written out: every length
/// fits in an eight-byte number.
pub open spec fn view_bounded(v: StrategyView) -> bool
    decreases v,
{
    match v {
        StrategyView::WordPiece { prefix, .. } => prefix.len() <= u64::MAX,
        StrategyView::BPEDecoder { suffix } => suffix.len() <= u64::MAX,
        StrategyView::Sequence(vs) => vs.len() <= u64::MAX && view_bounded_all(vs),
        _ => true,
    }
}

pub open spec fn view_bounded_all(vs: Seq<StrategyView>) -> bool
    decreases vs,
{
    if vs.len() == 0 {
        true
    } else {
        view_bounded(vs[0]) && view_bounded_all(vs.drop_first())
    }
}

// ---------------------------------------------------------------------------
// The parser, over views
// ---------------------------------------------------------------------------

/// A Unicode scalar value, as an eight-byte number.
pub open spec fn scalar_u64(x: u64) -> bool {
    x < 0xD800 || (0xE000 <= x && x < 0x110000)
}

/// The `j`-th eight-byte number of a character blob.
pub open spec fn word_at(bytes: Seq<u8>, j: int) -> u64 {
    spec_u64_from_le_bytes(bytes.subrange(8 * j, 8 * j + 8))
}

/// One eight-byte number.
pub open spec fn parse_u64(bytes: Seq<u8>) -> Result<(u64, int), SerializationError> {
    if bytes.len() < 8 {
        Err(SerializationError::MalformedPayload)
    } else {
        Ok((spec_u64_from_le_bytes(bytes.take(8)), 8))
    }
}

/// `n` characters, eight bytes each, every one a Unicode scalar value.
pub open spec fn parse_chars(bytes: Seq<u8>, n: nat) -> Result<(Seq<char>, int), SerializationError> {
    if 8 * n <= bytes.len() && (forall|j: int|
        0 <= j < n ==> scalar_u64(#[trigger] word_at(bytes, j))) {
        Ok((Seq::new(n, |j: int| ((word_at(bytes, j) as u32) as char)), 8 * n as int))
    } else {
        Err(SerializationError::MalformedPayload)
    }
}

/// A text: a length, then that many characters.
pub open spec fn parse_text(bytes: Seq<u8>) -> Result<(Seq<char>, int), SerializationError> {
    match parse_u64(bytes) {
        Err(e) => Err(e),
        Ok((n, k)) => match parse_chars(bytes.skip(k), n as nat) {
            Err(e) => Err(e),
            Ok((cs, k2)) => Ok((cs, k + k2)),
        },
    }
}

/// One flag byte.
pub open spec fn parse_flag(bytes: Seq<u8>) -> Result<(bool, int), SerializationError> {
    if bytes.len() < 1 {
        Err(SerializationError::MalformedPayload)
    } else if bytes[0] == 0 {
        Ok((false, 1))
    } else if bytes[0] == 1 {
        Ok((true, 1))
    } else {
        Err(SerializationError::MalformedPayload)
    }
}

/// One strategy: a tag, then the configuration that tag calls for. An
/// unrecognized tag, the foreign-bridge tag (which has no deserializer),
/// and a payload that does not parse are three distinct failures.
pub open spec fn parse_strategy(bytes: Seq<u8>) -> Result<(StrategyView, int), SerializationError>
    decreases bytes.len(), 0nat,
{
    match parse_text(bytes) {
        Err(e) => Err(e),
        Ok((tag, k)) => {
            let rest = bytes.skip(k);
            if tag == "ByteLevel"@ {
                Ok((StrategyView::ByteLevel, k))
            } else if tag == "Lowercase"@ {
                Ok((StrategyView::Lowercase, k))
            } else if tag == "WordPiece"@ {
                match parse_text(rest) {
                    Err(e) => Err(e),
                    Ok((prefix, k1)) => match parse_flag(rest.skip(k1)) {
                        Err(e) => Err(e),
                        Ok((cleanup, k2)) => Ok(
                            ((StrategyView::WordPiece { prefix, cleanup }), k + k1 + k2),
                        ),
                    },
                }
            } else if tag == "Metaspace"@ {
                match parse_u64(rest) {
                    Err(e) => Err(e),
                    Ok((x, k1)) => if scalar_u64(x) {
                        match parse_flag(rest.skip(k1)) {
                            Err(e) => Err(e),
                            Ok((add_prefix_space, k2)) => Ok(
                                (
                                    (StrategyView::Metaspace {
                                        replacement: ((x as u32) as char),
                                        add_prefix_space,
                                    }),
                                    k + k1 + k2,
                                ),
                            ),
                        }
                    } else {
                        Err(SerializationError::MalformedPayload)
                    },
                }
            } else if tag == "BPEDecoder"@ {
                match parse_text(rest) {
                    Err(e) => Err(e),
                    Ok((suffix, k1)) => Ok(((StrategyView::BPEDecoder { suffix }), k + k1)),
                }
            } else if tag == "Sequence"@ {
                match parse_u64(rest) {
                    Err(e) => Err(e),
                    Ok((n, k1)) => if k < 8 || k + k1 > bytes.len() {
                        Err(SerializationError::MalformedPayload)
                    } else {
                        match parse_members(bytes.skip(k + k1), n as nat) {
                            Err(e) => Err(e),
                            Ok((vs, k2)) => Ok((StrategyView::Sequence(vs), k + k1 + k2)),
                        }
                    },
                }
            } else if tag == "PyDecoder"@ {
                Err(SerializationError::NotDeserializable)
            } else {
                Err(SerializationError::UnknownTag)
            }
        },
    }
}

/// `n` strategies, one after the other.
pub open spec fn parse_members(bytes: Seq<u8>, n: nat) -> Result<
    (Seq<StrategyView>, int),
    SerializationError,
>
    decreases bytes.len(), n + 1,
{
    if n == 0 {
        Ok((Seq::empty(), 0))
    } else {
        match parse_strategy(bytes) {
            Err(e) => Err(e),
            Ok((v, k)) => if k <= 0 || k > bytes.len() {
                Err(SerializationError::MalformedPayload)
            } else {
                match parse_members(bytes.skip(k), (n - 1) as nat) {
                    Err(e) => Err(e),
                    Ok((vs, k2)) => Ok((seq![v] + vs, k + k2)),
                }
            },
        }
    }
}

// ---------------------------------------------------------------------------
// Round-trip lemmas
// ---------------------------------------------------------------------------

proof fn lemma_encoded_chars_len(s: Seq<char>)
    ensures
        encoded_chars(s).len() == 8 * s.len(),
    decreases s.len(),
{
    lemma_auto_spec_u64_to_from_le_bytes();
    if s.len() == 0 {
    } else {
        lemma_encoded_chars_len(s.drop_last());
    }
}

proof fn lemma_encoded_chars_index(s: Seq<char>, j: int)
    requires
        0 <= j < s.len(),
    ensures
        encoded_chars(s).subrange(8 * j, 8 * j + 8) == spec_u64_to_le_bytes(((s[j] as u32) as u64)),
    decreases s.len(),
{
    lemma_auto_spec_u64_to_from_le_bytes();
    lemma_encoded_chars_len(s);
    lemma_encoded_chars_len(s.drop_last());
    if j == s.len() - 1 {
        assert(encoded_chars(s).subrange(8 * j, 8 * j + 8) =~= spec_u64_to_le_bytes(
            ((s[j] as u32) as u64),
        ));
    } else {
        lemma_encoded_chars_index(s.drop_last(), j);
        assert(encoded_chars(s).subrange(8 * j, 8 * j + 8) =~= encoded_chars(
            s.drop_last(),
        ).subrange(8 * j, 8 * j + 8));
    }
}

/// A text, encoded then parsed with anything after it, gives itself back.
proof fn lemma_text_round_trip(s: Seq<char>, rest: Seq<u8>)
    requires
        s.len() <= u64::MAX,
    ensures
        parse_text(encoded_text(s) + rest) == Ok::<(Seq<char>, int), SerializationError>(
            (s, encoded_text(s).len() as int),
        ),
        encoded_text(s).len() == 8 + 8 * s.len(),
{
    lemma_auto_spec_u64_to_from_le_bytes();
    lemma_encoded_chars_len(s);
    let whole = encoded_text(s) + rest;
    assert(whole.take(8) =~= spec_u64_to_le_bytes(s.len() as u64));
    assert(parse_u64(whole) == Ok::<(u64, int), SerializationError>((s.len() as u64, 8)));
    let blob = whole.skip(8);
    assert(blob =~= encoded_chars(s) + rest);
    assert forall|j: int| 0 <= j < s.len() implies scalar_u64(#[trigger] word_at(blob, j))
        && ((word_at(blob, j) as u32) as char) == s[j] by {
        lemma_encoded_chars_index(s, j);
        assert(blob.subrange(8 * j, 8 * j + 8) =~= encoded_chars(s).subrange(8 * j, 8 * j + 8));
        assert(word_at(blob, j) == ((s[j] as u32) as u64));
        vstd::utf8::char_is_scalar(s[j]);
        vstd::utf8::char_u32_cast(s[j], s[j] as u32);
    }
    match parse_chars(blob, s.len() as nat) {
        Ok((cs, k2)) => {
            assert(cs =~= s);
            assert(k2 == 8 * s.len());
        },
        Err(_) => {
            assert(8 * s.len() <= blob.len());
            assert(false);
        },
    }
}

/// A flag, encoded then parsed with anything after it, gives itself back.
proof fn lemma_flag_round_trip(b: bool, rest: Seq<u8>)
    ensures
        parse_flag(encoded_flag(b) + rest) == Ok::<(bool, int), SerializationError>((b, 1)),
{
    assert((encoded_flag(b) + rest)[0] == encoded_flag(b)[0]);
}

/// Appending one member to a prefix extends its encoding at the end.
proof fn lemma_encoded_list_take(vs: Seq<StrategyView>, i: int)
    requires
        0 <= i < vs.len(),
    ensures
        encoded_list(vs.take(i + 1)) == encoded_list(vs.take(i)) + encoded(vs[i]),
    decreases i,
{
    if i == 0 {
        assert(vs.take(1)[0] == vs[0]);
        assert(vs.take(1).drop_first() =~= Seq::<StrategyView>::empty());
        assert(vs.take(0) =~= Seq::<StrategyView>::empty());
        assert(encoded_list(Seq::<StrategyView>::empty()) =~= Seq::<u8>::empty());
        assert(encoded_list(vs.take(1)) =~= encoded(vs[0]));
        assert(encoded_list(vs.take(0)) + encoded(vs[0]) =~= encoded(vs[0]));
    } else {
        lemma_encoded_list_take(vs.drop_first(), i - 1);
        assert(vs.take(i + 1)[0] == vs[0]);
        assert(vs.take(i)[0] == vs[0]);
        assert(vs.take(i + 1).drop_first() =~= vs.drop_first().take(i));
        assert(vs.take(i).drop_first() =~= vs.drop_first().take(i - 1));
        assert(vs.drop_first()[i - 1] == vs[i]);
        assert(encoded(vs[0]) + (encoded_list(vs.drop_first().take(i - 1)) + encoded(vs[i]))
            =~= (encoded(vs[0]) + encoded_list(vs.drop_first().take(i - 1))) + encoded(vs[i]));
    }
}

/// Every persisted form is at least one number long.
proof fn lemma_encoded_min_len(v: StrategyView)
    ensures
        encoded(v).len() >= 8 + 8 * tag_chars(v).len(),
{
    lemma_auto_spec_u64_to_from_le_bytes();
    lemma_encoded_chars_len(tag_chars(v));
    match v {
        StrategyView::ByteLevel => {},
        StrategyView::WordPiece { .. } => {},
        StrategyView::Metaspace { .. } => {},
        StrategyView::BPEDecoder { .. } => {},
        StrategyView::Lowercase => {},
        StrategyView::Sequence(_) => {},
        StrategyView::Foreign(_) => {},
    }
}

/// The seven tags are pairwise distinct.
proof fn lemma_tags_distinct()
    ensures
        "ByteLevel"@ != "WordPiece"@,
        "ByteLevel"@ != "Metaspace"@,
        "ByteLevel"@ != "BPEDecoder"@,
        "ByteLevel"@ != "Lowercase"@,
        "ByteLevel"@ != "Sequence"@,
        "ByteLevel"@ != "PyDecoder"@,
        "WordPiece"@ != "Metaspace"@,
        "WordPiece"@ != "BPEDecoder"@,
        "WordPiece"@ != "Lowercase"@,
        "WordPiece"@ != "Sequence"@,
        "WordPiece"@ != "PyDecoder"@,
        "Metaspace"@ != "BPEDecoder"@,
        "Metaspace"@ != "Lowercase"@,
        "Metaspace"@ != "Sequence"@,
        "Metaspace"@ != "PyDecoder"@,
        "BPEDecoder"@ != "Lowercase"@,
        "BPEDecoder"@ != "Sequence"@,
        "BPEDecoder"@ != "PyDecoder"@,
        "Lowercase"@ != "Sequence"@,
        "Lowercase"@ != "PyDecoder"@,
        "Sequence"@ != "PyDecoder"@,
        "ByteLevel"@.len() == 9,
        "WordPiece"@.len() == 9,
        "Metaspace"@.len() == 9,
        "BPEDecoder"@.len() == 10,
        "Lowercase"@.len() == 9,
        "Sequence"@.len() == 8,
        "PyDecoder"@.len() == 9,
{
    reveal_strlit("ByteLevel");
    reveal_strlit("WordPiece");
    reveal_strlit("Metaspace");
    reveal_strlit("BPEDecoder");
    reveal_strlit("Lowercase");
    reveal_strlit("Sequence");
    reveal_strlit("PyDecoder");
    assert("ByteLevel"@[0] != "WordPiece"@[0]);
    assert("ByteLevel"@[0] != "Metaspace"@[0]);
    assert("ByteLevel"@[1] != "BPEDecoder"@[1]);
    assert("ByteLevel"@[0] != "Lowercase"@[0]);
    assert("ByteLevel"@[0] != "Sequence"@[0]);
    assert("ByteLevel"@[0] != "PyDecoder"@[0]);
    assert("WordPiece"@[0] != "Metaspace"@[0]);
    assert("WordPiece"@[0] != "BPEDecoder"@[0]);
    assert("WordPiece"@[0] != "Lowercase"@[0]);
    assert("WordPiece"@[0] != "Sequence"@[0]);
    assert("WordPiece"@[0] != "PyDecoder"@[0]);
    assert("Metaspace"@[0] != "BPEDecoder"@[0]);
    assert("Metaspace"@[0] != "Lowercase"@[0]);
    assert("Metaspace"@[0] != "Sequence"@[0]);
    assert("Metaspace"@[0] != "PyDecoder"@[0]);
    assert("BPEDecoder"@[0] != "Lowercase"@[0]);
    assert("BPEDecoder"@[0] != "Sequence"@[0]);
    assert("BPEDecoder"@[0] != "PyDecoder"@[0]);
    assert("Lowercase"@[0] != "Sequence"@[0]);
    assert("Lowercase"@[0] != "PyDecoder"@[0]);
    assert("Sequence"@[0] != "PyDecoder"@[0]);
}

/// One variant with a simple payload, encoded then parsed.
#[verifier::rlimit(50)]
proof fn lemma_rt_tag_only(v: StrategyView, rest: Seq<u8>)
    requires
        v is ByteLevel || v is Lowercase,
    ensures
        parse_strategy(encoded(v) + rest) == Ok::<(StrategyView, int), SerializationError>(
            (v, encoded(v).len() as int),
        ),
{
    lemma_tags_distinct();
    let tag = tag_chars(v);
    let whole = encoded(v) + rest;
    assert(whole =~= encoded_text(tag) + rest);
    lemma_text_round_trip(tag, rest);
    assert(encoded(v) =~= encoded_text(tag));
}

#[verifier::rlimit(50)]
proof fn lemma_rt_wordpiece(prefix: Seq<char>, cleanup: bool, rest: Seq<u8>)
    requires
        prefix.len() <= u64::MAX,
    ensures
        parse_strategy(encoded((StrategyView::WordPiece { prefix, cleanup })) + rest) == Ok::<
            (StrategyView, int),
            SerializationError,
        >(
            ((StrategyView::WordPiece { prefix, cleanup }), encoded(
                (StrategyView::WordPiece { prefix, cleanup }),
            ).len() as int),
        ),
{
    lemma_tags_distinct();
    let v = (StrategyView::WordPiece { prefix, cleanup });
    let tag = tag_chars(v);
    let whole = encoded(v) + rest;
    let payload = encoded_text(prefix) + encoded_flag(cleanup);
    assert(whole =~= encoded_text(tag) + (payload + rest));
    lemma_text_round_trip(tag, payload + rest);
    let k = encoded_text(tag).len() as int;
    let after_tag = whole.skip(k);
    assert(after_tag =~= payload + rest);
    assert(after_tag =~= encoded_text(prefix) + (encoded_flag(cleanup) + rest));
    lemma_text_round_trip(prefix, encoded_flag(cleanup) + rest);
    let k1 = encoded_text(prefix).len() as int;
    assert(after_tag.skip(k1) =~= encoded_flag(cleanup) + rest);
    lemma_flag_round_trip(cleanup, rest);
}

#[verifier::rlimit(50)]
proof fn lemma_rt_metaspace(replacement: char, add_prefix_space: bool, rest: Seq<u8>)
    ensures
        parse_strategy(encoded((StrategyView::Metaspace { replacement, add_prefix_space })) + rest)
            == Ok::<(StrategyView, int), SerializationError>(
            ((StrategyView::Metaspace { replacement, add_prefix_space }), encoded(
                (StrategyView::Metaspace { replacement, add_prefix_space }),
            ).len() as int),
        ),
{
    lemma_tags_distinct();
    lemma_auto_spec_u64_to_from_le_bytes();
    let v = (StrategyView::Metaspace { replacement, add_prefix_space });
    let tag = tag_chars(v);
    let whole = encoded(v) + rest;
    let word = spec_u64_to_le_bytes(((replacement as u32) as u64));
    let payload = word + encoded_flag(add_prefix_space);
    assert(whole =~= encoded_text(tag) + (payload + rest));
    lemma_text_round_trip(tag, payload + rest);
    let k = encoded_text(tag).len() as int;
    let after_tag = whole.skip(k);
    assert(after_tag =~= payload + rest);
    assert(after_tag.take(8) =~= word);
    assert(parse_u64(after_tag) == Ok::<(u64, int), SerializationError>(
        (((replacement as u32) as u64), 8),
    ));
    vstd::utf8::char_is_scalar(replacement);
    vstd::utf8::char_u32_cast(replacement, replacement as u32);
    assert(after_tag.skip(8) =~= encoded_flag(add_prefix_space) + rest);
    lemma_flag_round_trip(add_prefix_space, rest);
}

#[verifier::rlimit(50)]
proof fn lemma_rt_bpe(suffix: Seq<char>, rest: Seq<u8>)
    requires
        suffix.len() <= u64::MAX,
    ensures
        parse_strategy(encoded((StrategyView::BPEDecoder { suffix })) + rest) == Ok::<
            (StrategyView, int),
            SerializationError,
        >(
            ((StrategyView::BPEDecoder { suffix }), encoded(
                (StrategyView::BPEDecoder { suffix }),
            ).len() as int),
        ),
{
    lemma_tags_distinct();
    let v = (StrategyView::BPEDecoder { suffix });
    let tag = tag_chars(v);
    let whole = encoded(v) + rest;
    let payload = encoded_text(suffix);
    assert(whole =~= encoded_text(tag) + (payload + rest));
    lemma_text_round_trip(tag, payload + rest);
    let k = encoded_text(tag).len() as int;
    let after_tag = whole.skip(k);
    assert(after_tag =~= encoded_text(suffix) + rest);
    lemma_text_round_trip(suffix, rest);
}

/// The round-trip law, one strategy: a foreign-free strategy's persisted
/// form, parsed with anything after it, gives exactly its view back.
#[verifier::rlimit(100)]
pub proof fn lemma_round_trip_with_rest(v: StrategyView, rest: Seq<u8>)
    requires
        view_foreign_free(v),
        view_bounded(v),
    ensures
        parse_strategy(encoded(v) + rest) == Ok::<(StrategyView, int), SerializationError>(
            (v, encoded(v).len() as int),
        ),
        encoded(v).len() >= 8,
    decreases v, 0nat,
{
    lemma_encoded_min_len(v);
    match v {
        StrategyView::ByteLevel => {
            lemma_rt_tag_only(v, rest);
        },
        StrategyView::Lowercase => {
            lemma_rt_tag_only(v, rest);
        },
        StrategyView::WordPiece { prefix, cleanup } => {
            lemma_rt_wordpiece(prefix, cleanup, rest);
        },
        StrategyView::Metaspace { replacement, add_prefix_space } => {
            lemma_rt_metaspace(replacement, add_prefix_space, rest);
        },
        StrategyView::BPEDecoder { suffix } => {
            lemma_rt_bpe(suffix, rest);
        },
        StrategyView::Sequence(vs) => {
            lemma_tags_distinct();
            lemma_auto_spec_u64_to_from_le_bytes();
            let tag = tag_chars(v);
            let whole = encoded(v) + rest;
            let payload = spec_u64_to_le_bytes(vs.len() as u64) + encoded_list(vs);
            assert(whole =~= encoded_text(tag) + (payload + rest));
            lemma_text_round_trip(tag, payload + rest);
            let k = encoded_text(tag).len() as int;
            let after_tag = whole.skip(k);
            assert(after_tag =~= payload + rest);
            assert(after_tag.take(8) =~= spec_u64_to_le_bytes(vs.len() as u64));
            assert(parse_u64(after_tag) == Ok::<(u64, int), SerializationError>(
                (vs.len() as u64, 8),
            ));
            assert(k >= 8);
            assert(whole.skip(k + 8) =~= encoded_list(vs) + rest);
            lemma_round_trip_members(vs, rest);
            assert(k + 8 <= whole.len());
        },
        StrategyView::Foreign(_) => {
            assert(false);
        },
    }
}

/// The round-trip law, a member list.
proof fn lemma_round_trip_members(vs: Seq<StrategyView>, rest: Seq<u8>)
    requires
        view_foreign_free_all(vs),
        view_bounded_all(vs),
    ensures
        parse_members(encoded_list(vs) + rest, vs.len() as nat) == Ok::<
            (Seq<StrategyView>, int),
            SerializationError,
        >((vs, encoded_list(vs).len() as int)),
    decreases vs, 1nat,
{
    if vs.len() == 0 {
        assert(encoded_list(vs) =~= Seq::<u8>::empty());
        assert(parse_members(encoded_list(vs) + rest, 0) == Ok::<
            (Seq<StrategyView>, int),
            SerializationError,
        >((Seq::empty(), 0)));
        assert(vs =~= Seq::<StrategyView>::empty());
    } else {
        let head = vs[0];
        let tail = vs.drop_first();
        let whole = encoded_list(vs) + rest;
        assert(whole =~= encoded(head) + (encoded_list(tail) + rest));
        lemma_round_trip_with_rest(head, encoded_list(tail) + rest);
        let k = encoded(head).len() as int;
        assert(k >= 8);
        assert(k <= whole.len());
        assert(whole.skip(k) =~= encoded_list(tail) + rest);
        lemma_round_trip_members(tail, rest);
        assert(seq![head] + tail =~= vs);
    }
}

/// The round-trip law: for every foreign-free, machine-bounded strategy
/// view, the persisted form parses back to exactly that view, consuming
/// the whole form.
pub proof fn lemma_persist_restore_round_trip(v: StrategyView)
    requires
        view_foreign_free(v),
        view_bounded(v),
    ensures
        parse_strategy(encoded(v)) == Ok::<(StrategyView, int), SerializationError>(
            (v, encoded(v).len() as int),
        ),
{
    lemma_round_trip_with_rest(v, Seq::empty());
    assert(encoded(v) + Seq::<u8>::empty() =~= encoded(v));
}

/// Restoring into the foreign-bridge tag always fails: any persisted form
/// that names the foreign tag parses to the no-deserializer error.
pub proof fn lemma_foreign_tag_never_restores(bytes: Seq<u8>)
    requires
        parse_text(bytes) matches Ok(t) && t.0 == "PyDecoder"@,
    ensures
        parse_strategy(bytes) == Err::<(StrategyView, int), SerializationError>(
            SerializationError::NotDeserializable,
        ),
{
    lemma_tags_distinct();
}


/// The full round-trip law at the strategy level: restoring the persisted
/// form of a foreign-free strategy yields one that normalizes and decodes
/// identically to the original on every input.
pub proof fn lemma_round_trip_preserves_behavior(
    original: Strategy,
    restored: Strategy,
    text: Seq<char>,
    tokens: Seq<Seq<char>>,
)
    requires
        foreign_free(original),
        view_bounded(original@),
        parse_strategy(encoded(original@)) matches Ok(p) && restored@ == p.0,
    ensures
        crate::strategy::applied(restored, text) == crate::strategy::applied(original, text),
        crate::strategy::step(restored, tokens) == crate::strategy::step(original, tokens),
{
    lemma_foreign_free_view(original);
    lemma_persist_restore_round_trip(original@);
    crate::strategy::lemma_view_determines_behavior(restored, original, text, tokens);
}

// ---------------------------------------------------------------------------
// Writing the form out
// ---------------------------------------------------------------------------

/// Relies on `char::from_u32`: `Some` exactly for Unicode scalar values,
/// preserving the code point.
#[verifier::external_body]
fn char_from_u32(x: u32) -> (r: Option<char>)
    ensures
        r matches Some(c) ==> c as u32 == x,
        (r is Some) == (x < 0xD800 || (0xE000 <= x && x < 0x110000)),
{
    char::from_u32(x)
}

fn push_bytes(out: &mut Vec<u8>, add: &Vec<u8>)
    ensures
        final(out)@ == old(out)@ + add@,
{
    let mut i: usize = 0;
    while i < add.len()
        invariant
            i <= add@.len(),
            out@ == old(out)@ + add@.take(i as int),
        decreases add@.len() - i,
    {
        proof {
            lemma_take_step(add@, i as int);
            assert((old(out)@ + add@.take(i as int)).push(add@[i as int]) =~= old(out)@ + add@.take(
                i + 1,
            ));
        }
        out.push(add[i]);
        i = i + 1;
    }
    proof {
        assert(add@.take(add@.len() as int) =~= add@);
        assert(out@ =~= old(out)@ + add@);
    }
}

fn put_u64(out: &mut Vec<u8>, x: u64)
    ensures
        final(out)@ == old(out)@ + spec_u64_to_le_bytes(x),
{
    let b = u64_to_le_bytes(x);
    push_bytes(out, &b);
}

fn put_flag(out: &mut Vec<u8>, b: bool)
    ensures
        final(out)@ == old(out)@ + encoded_flag(b),
{
    if b {
        out.push(1u8);
    } else {
        out.push(0u8);
    }
    proof {
        assert(out@ =~= old(out)@ + encoded_flag(b));
    }
}

#[verifier::loop_isolation(false)]
fn put_text(out: &mut Vec<u8>, s: &str)
    ensures
        final(out)@ == old(out)@ + encoded_text(s@),
{
    let cs = chars_of(s);
    put_u64(out, cs.len() as u64);
    let ghost base = out@;
    let mut i: usize = 0;
    proof {
        assert(encoded_chars(cs@.take(0)) =~= Seq::<u8>::empty());
        assert(base + Seq::<u8>::empty() =~= base);
    }
    while i < cs.len()
        invariant
            i <= cs@.len(),
            out@ == base + encoded_chars(cs@.take(i as int)),
        decreases cs@.len() - i,
    {
        proof {
            lemma_take_step(cs@, i as int);
        }
        put_u64(out, (cs[i] as u32) as u64);
        i = i + 1;
    }
    proof {
        assert(cs@.take(cs@.len() as int) =~= cs@);
        assert(out@ =~= old(out)@ + encoded_text(s@));
    }
}

proof fn lemma_views_of_index(ms: Seq<Strategy>, i: int)
    requires
        0 <= i < ms.len(),
    ensures
        views_of(ms)[i] == strategy_view(ms[i]),
    decreases ms,
{
    lemma_views_of_len(ms);
    if i == 0 {
    } else {
        lemma_views_of_index(ms.drop_first(), i - 1);
        lemma_views_of_len(ms.drop_first());
        assert(views_of(ms) == seq![strategy_view(ms[0])] + views_of(ms.drop_first()));
        assert(views_of(ms)[i] == views_of(ms.drop_first())[i - 1]);
    }
}

/// Whether a foreign bridge occurs anywhere in the strategy.
#[verifier::loop_isolation(false)]
fn contains_foreign(s: &Strategy) -> (r: bool)
    ensures
        r == !foreign_free(*s),
    decreases *s,
{
    match s {
        Strategy::Foreign(_) => true,
        Strategy::Sequence(sq) => {
            let ghost ms = sq.members();
            let mut i: usize = 0;
            proof {
                assert(ms.skip(0) =~= ms);
            }
            while i < sq.normalizers.len()
                invariant
                    i <= ms.len(),
                    foreign_free_all(ms) == foreign_free_all(ms.skip(i as int)),
                decreases ms.len() - i,
            {
                proof {
                    lemma_skip_step(ms, i as int);
                    assert(decreases_to!(*s => *sq));
                    assert(decreases_to!(*sq => sq.normalizers));
                    assert(decreases_to!(sq.normalizers => sq.normalizers@));
                    assert(decreases_to!(sq.normalizers@ => sq.normalizers@[i as int]));
                    assert(decreases_to!(*s => sq.normalizers@[i as int]));
                }
                if contains_foreign(&sq.normalizers[i]) {
                    return true;
                }
                i = i + 1;
            }
            proof {
                assert(ms.skip(ms.len() as int) =~= Seq::<Strategy>::empty());
            }
            false
        },
        _ => false,
    }
}

/// Append the persisted form of a foreign-free strategy.
#[verifier::loop_isolation(false)]
fn encode_onto(s: &Strategy, out: &mut Vec<u8>)
    requires
        foreign_free(*s),
    ensures
        final(out)@ == old(out)@ + encoded(s@),
    decreases *s,
{
    match s {
        Strategy::ByteLevel(_) => {
            put_text(out, "ByteLevel");
            proof {
                assert(out@ =~= old(out)@ + encoded(s@));
            }
        },
        Strategy::Lowercase(_) => {
            put_text(out, "Lowercase");
            proof {
                assert(out@ =~= old(out)@ + encoded(s@));
            }
        },
        Strategy::WordPiece(w) => {
            put_text(out, "WordPiece");
            put_text(out, w.prefix.as_str());
            put_flag(out, w.cleanup);
            proof {
                assert(out@ =~= old(out)@ + encoded(s@));
            }
        },
        Strategy::Metaspace(m) => {
            put_text(out, "Metaspace");
            put_u64(out, (m.replacement as u32) as u64);
            put_flag(out, m.add_prefix_space);
            proof {
                assert(out@ =~= old(out)@ + encoded(s@));
            }
        },
        Strategy::BPEDecoder(b) => {
            put_text(out, "BPEDecoder");
            put_text(out, b.suffix.as_str());
            proof {
                assert(out@ =~= old(out)@ + encoded(s@));
            }
        },
        Strategy::Sequence(sq) => {
            let ghost ms = sq.members();
            let ghost vs = views_of(ms);
            proof {
                lemma_views_of_len(ms);
            }
            put_text(out, "Sequence");
            put_u64(out, sq.normalizers.len() as u64);
            let ghost base = out@;
            let mut i: usize = 0;
            proof {
                assert(ms.skip(0) =~= ms);
                assert(encoded_list(vs.take(0)) =~= Seq::<u8>::empty());
                assert(base + Seq::<u8>::empty() =~= base);
            }
            while i < sq.normalizers.len()
                invariant
                    i <= ms.len(),
                    out@ == base + encoded_list(vs.take(i as int)),
                    foreign_free_all(ms.skip(i as int)),
                decreases ms.len() - i,
            {
                proof {
                    lemma_skip_step(ms, i as int);
                    lemma_views_of_index(ms, i as int);
                    lemma_encoded_list_take(vs, i as int);
                    assert(decreases_to!(*s => *sq));
                    assert(decreases_to!(*sq => sq.normalizers));
                    assert(decreases_to!(sq.normalizers => sq.normalizers@));
                    assert(decreases_to!(sq.normalizers@ => sq.normalizers@[i as int]));
                    assert(decreases_to!(*s => sq.normalizers@[i as int]));
                }
                encode_onto(&sq.normalizers[i], out);
                i = i + 1;
            }
            proof {
                assert(vs.take(ms.len() as int) =~= vs);
                assert(out@ =~= old(out)@ + encoded(s@));
            }
        },
        Strategy::Foreign(_) => {
            proof {
                assert(false);
            }
        },
    }
}

// ---------------------------------------------------------------------------
// Reading the form back
// ---------------------------------------------------------------------------

fn read_u64(bytes: &Vec<u8>, pos: usize) -> (r: Result<(u64, usize), SerializationError>)
    requires
        pos <= bytes@.len(),
    ensures
        match parse_u64(bytes@.skip(pos as int)) {
            Ok(p) => r matches Ok(q) && q.0 == p.0 && q.1 == pos + p.1 && pos + 8 <= bytes@.len(),
            Err(e) => r matches Err(e2) && e2 == e,
        },
{
    if bytes.len() - pos < 8 {
        return Err(SerializationError::MalformedPayload);
    }
    let window = slice_subrange(bytes.as_slice(), pos, pos + 8);
    let x = u64_from_le_bytes(window);
    proof {
        assert(bytes@.subrange(pos as int, pos + 8) =~= bytes@.skip(pos as int).take(8));
    }
    Ok((x, pos + 8))
}

fn read_flag(bytes: &Vec<u8>, pos: usize) -> (r: Result<(bool, usize), SerializationError>)
    requires
        pos <= bytes@.len(),
    ensures
        match parse_flag(bytes@.skip(pos as int)) {
            Ok(p) => r matches Ok(q) && q.0 == p.0 && q.1 == pos + p.1 && pos + 1 <= bytes@.len(),
            Err(e) => r matches Err(e2) && e2 == e,
        },
{
    if bytes.len() - pos < 1 {
        return Err(SerializationError::MalformedPayload);
    }
    proof {
        assert(bytes@.skip(pos as int)[0] == bytes@[pos as int]);
    }
    let b = bytes[pos];
    if b == 0 {
        Ok((false, pos + 1))
    } else if b == 1 {
        Ok((true, pos + 1))
    } else {
        Err(SerializationError::MalformedPayload)
    }
}

#[verifier::loop_isolation(false)]
fn read_text(bytes: &Vec<u8>, pos: usize) -> (r: Result<(Vec<char>, usize), SerializationError>)
    requires
        pos <= bytes@.len(),
    ensures
        match parse_text(bytes@.skip(pos as int)) {
            Ok(p) => r matches Ok(q) && q.0@ == p.0 && q.1 == pos + p.1 && pos + p.1 <= bytes@.len()
                && p.1 >= 8,
            Err(e) => r matches Err(e2) && e2 == e,
        },
{
    let ghost tail = bytes@.skip(pos as int);
    let blen: usize = bytes.len();
    let n: u64;
    let pos1: usize;
    match read_u64(bytes, pos) {
        Err(e) => {
            return Err(e);
        },
        Ok(q) => {
            n = q.0;
            pos1 = q.1;
        },
    }
    let ghost blob = bytes@.skip(pos1 as int);
    proof {
        assert(blob =~= tail.skip(8));
    }
    if n > u64::MAX / 8 {
        proof {
            assert(blob.len() <= blen);
            assert(8 * (n as nat) > blob.len());
        }
        return Err(SerializationError::MalformedPayload);
    }
    let remaining: u64 = (blen - pos1) as u64;
    if 8 * n > remaining {
        proof {
            assert(8 * (n as nat) > blob.len());
        }
        return Err(SerializationError::MalformedPayload);
    }
    let mut out: Vec<char> = Vec::new();
    let mut j: u64 = 0;
    while j < n
        invariant
            j <= n,
            out@.len() == j,
            forall|jj: int|
                0 <= jj < j ==> scalar_u64(#[trigger] word_at(blob, jj)) && out@[jj] == ((word_at(
                    blob,
                    jj,
                ) as u32) as char),
        decreases n - j,
    {
        let posj: usize = pos1 + 8 * (j as usize);
        let x: u64;
        match read_u64(bytes, posj) {
            Err(_) => {
                proof {
                    assert(false);
                }
                return Err(SerializationError::MalformedPayload);
            },
            Ok(q) => {
                x = q.0;
            },
        }
        proof {
            assert(bytes@.skip(posj as int).take(8) =~= blob.subrange(
                8 * (j as int),
                8 * (j as int) + 8,
            ));
            assert(x == word_at(blob, j as int));
        }
        if x < 0xD800 || (0xE000 <= x && x < 0x110000) {
            match char_from_u32(x as u32) {
                Some(c) => {
                    proof {
                        vstd::utf8::char_u32_cast(c, x as u32);
                    }
                    out.push(c);
                },
                None => {
                    proof {
                        assert(false);
                    }
                    return Err(SerializationError::MalformedPayload);
                },
            }
        } else {
            return Err(SerializationError::MalformedPayload);
        }
        j = j + 1;
    }
    proof {
        match parse_chars(blob, n as nat) {
            Ok(p) => {
                assert(out@ =~= p.0);
            },
            Err(_) => {
                assert(false);
            },
        }
    }
    Ok((out, pos1 + 8 * (n as usize)))
}

/// Whether two character lists are equal.
fn chars_eq(a: &Vec<char>, b: &Vec<char>) -> (r: bool)
    ensures
        r == (a@ == b@),
{
    if a.len() != b.len() {
        return false;
    }
    let mut i: usize = 0;
    while i < a.len()
        invariant
            i <= a@.len(),
            a@.len() == b@.len(),
            forall|k: int| 0 <= k < i ==> a@[k] == b@[k],
        decreases a@.len() - i,
    {
        if a[i] != b[i] {
            return false;
        }
        i = i + 1;
    }
    proof {
        assert(a@ =~= b@);
    }
    true
}

/// Parse one strategy starting at `pos`, mirroring [`parse_strategy`].
#[verifier::loop_isolation(false)]
#[verifier::rlimit(100)]
fn parse_at(bytes: &Vec<u8>, pos: usize) -> (r: Result<(Strategy, usize), SerializationError>)
    requires
        pos <= bytes@.len(),
    ensures
        match parse_strategy(bytes@.skip(pos as int)) {
            Ok(p) => r matches Ok(q) && q.0@ == p.0 && q.1 == pos + p.1 && pos + p.1
                <= bytes@.len(),
            Err(e) => r matches Err(e2) && e2 == e,
        },
    decreases bytes@.len() - pos, 0nat,
{
    let ghost tail = bytes@.skip(pos as int);
    let tagv: Vec<char>;
    let pos1: usize;
    match read_text(bytes, pos) {
        Err(e) => {
            return Err(e);
        },
        Ok(q) => {
            tagv = q.0;
            pos1 = q.1;
        },
    }
    let ghost k = pos1 - pos;
    proof {
        assert(bytes@.skip(pos1 as int) =~= tail.skip(k));
    }
    if chars_eq(&tagv, &chars_of("ByteLevel")) {
        Ok((Strategy::ByteLevel(ByteLevel {  }), pos1))
    } else if chars_eq(&tagv, &chars_of("Lowercase")) {
        Ok((Strategy::Lowercase(Lowercase), pos1))
    } else if chars_eq(&tagv, &chars_of("WordPiece")) {
        let pcs: Vec<char>;
        let pos2: usize;
        match read_text(bytes, pos1) {
            Err(e) => {
                return Err(e);
            },
            Ok(q) => {
                pcs = q.0;
                pos2 = q.1;
            },
        }
        proof {
            assert(bytes@.skip(pos2 as int) =~= tail.skip(k).skip(pos2 - pos1));
        }
        match read_flag(bytes, pos2) {
            Err(e) => Err(e),
            Ok(q) => {
                let w = WordPiece { prefix: string_of(&pcs), cleanup: q.0 };
                Ok((Strategy::WordPiece(w), q.1))
            },
        }
    } else if chars_eq(&tagv, &chars_of("Metaspace")) {
        let x: u64;
        let pos2: usize;
        match read_u64(bytes, pos1) {
            Err(e) => {
                return Err(e);
            },
            Ok(q) => {
                x = q.0;
                pos2 = q.1;
            },
        }
        proof {
            assert(bytes@.skip(pos2 as int) =~= tail.skip(k).skip(pos2 - pos1));
        }
        if x < 0xD800 || (0xE000 <= x && x < 0x110000) {
            match char_from_u32(x as u32) {
                Some(c) => {
                    proof {
                        vstd::utf8::char_u32_cast(c, x as u32);
                    }
                    match read_flag(bytes, pos2) {
                        Err(e) => Err(e),
                        Ok(q) => {
                            let m = Metaspace { replacement: c, add_prefix_space: q.0 };
                            Ok((Strategy::Metaspace(m), q.1))
                        },
                    }
                },
                None => {
                    proof {
                        assert(false);
                    }
                    Err(SerializationError::MalformedPayload)
                },
            }
        } else {
            Err(SerializationError::MalformedPayload)
        }
    } else if chars_eq(&tagv, &chars_of("BPEDecoder")) {
        match read_text(bytes, pos1) {
            Err(e) => Err(e),
            Ok(q) => {
                let b = BPEDecoder { suffix: string_of(&q.0) };
                Ok((Strategy::BPEDecoder(b), q.1))
            },
        }
    } else if chars_eq(&tagv, &chars_of("Sequence")) {
        let n: u64;
        let pos2: usize;
        match read_u64(bytes, pos1) {
            Err(e) => {
                return Err(e);
            },
            Ok(q) => {
                n = q.0;
                pos2 = q.1;
            },
        }
        proof {
            assert(bytes@.skip(pos2 as int) =~= tail.skip(k + (pos2 - pos1)));
        }
        match parse_members_at(bytes, pos2, n) {
            Err(e) => Err(e),
            Ok(q) => {
                let sq = Sequence { normalizers: q.0 };
                Ok((Strategy::Sequence(sq), q.1))
            },
        }
    } else if chars_eq(&tagv, &chars_of("PyDecoder")) {
        Err(SerializationError::NotDeserializable)
    } else {
        Err(SerializationError::UnknownTag)
    }
}

/// Parse `n` strategies one after the other, mirroring [`parse_members`].
#[verifier::loop_isolation(false)]
fn parse_members_at(bytes: &Vec<u8>, pos: usize, n: u64) -> (r: Result<
    (Vec<Strategy>, usize),
    SerializationError,
>)
    requires
        pos <= bytes@.len(),
    ensures
        match parse_members(bytes@.skip(pos as int), n as nat) {
            Ok(p) => r matches Ok(q) && views_of(q.0@) == p.0 && q.1 == pos + p.1 && pos + p.1
                <= bytes@.len(),
            Err(e) => r matches Err(e2) && e2 == e,
        },
    decreases bytes@.len() - pos, n + 1,
{
    let ghost tail = bytes@.skip(pos as int);
    if n == 0 {
        let out: Vec<Strategy> = Vec::new();
        proof {
            assert(views_of(out@) =~= Seq::<StrategyView>::empty());
        }
        Ok((out, pos))
    } else {
        let head: Strategy;
        let pos1: usize;
        match parse_at(bytes, pos) {
            Err(e) => {
                return Err(e);
            },
            Ok(q) => {
                head = q.0;
                pos1 = q.1;
            },
        }
        if pos1 <= pos || pos1 > bytes.len() {
            return Err(SerializationError::MalformedPayload);
        }
        proof {
            assert(bytes@.skip(pos1 as int) =~= tail.skip(pos1 - pos));
        }
        match parse_members_at(bytes, pos1, n - 1) {
            Err(e) => Err(e),
            Ok(q) => {
                let mut members = q.0;
                let ghost rest_seq = members@;
                members.insert(0, head);
                proof {
                    assert(members@ =~= seq![head] + rest_seq);
                    assert(members@.drop_first() =~= rest_seq);
                    assert(members@[0] == head);
                    assert(views_of(members@) =~= seq![strategy_view(head)] + views_of(rest_seq));
                }
                Ok((members, q.1))
            },
        }
    }
}



impl Strategy {
    /// The stable tag naming this strategy's concrete variant: the
    /// discriminator the persisted form carries.
    pub fn tag(&self) -> (r: &'static str)
        ensures
            r@ == tag_chars(self@),
    {
        match self {
            Strategy::ByteLevel(_) => "ByteLevel",
            Strategy::WordPiece(_) => "WordPiece",
            Strategy::Metaspace(_) => "Metaspace",
            Strategy::BPEDecoder(_) => "BPEDecoder",
            Strategy::Lowercase(_) => "Lowercase",
            Strategy::Sequence(_) => "Sequence",
            Strategy::Foreign(_) => "PyDecoder",
        }
    }
}

// ---------------------------------------------------------------------------
// The facade's persistence entry points
// ---------------------------------------------------------------------------

impl Decoder {
    /// Persist the held strategy into its self-describing byte form. A
    /// strategy containing a foreign bridge always fails with the
    /// not-serializable error; there is no success path for it, so no
    /// payload is ever produced.
    pub fn persist(&self) -> (r: Result<Vec<u8>, SerializationError>)
        ensures
            foreign_free(self.strategy()) ==> (r matches Ok(b) && b@ == encoded(
                self.strategy()@,
            )),
            !foreign_free(self.strategy()) ==> r == Err::<Vec<u8>, SerializationError>(
                SerializationError::NotSerializable,
            ),
    {
        let held = self.decoder.held();
        if contains_foreign(held) {
            Err(SerializationError::NotSerializable)
        } else {
            let mut out: Vec<u8> = Vec::new();
            encode_onto(held, &mut out);
            proof {
                assert(out@ =~= encoded(self.strategy()@));
            }
            Ok(out)
        }
    }

    /// Parse a persisted form and replace the container's contents
    /// wholesale with a freshly built strategy. An unrecognized tag, the
    /// foreign-bridge tag, a malformed payload and trailing bytes each
    /// fail with their own error, leaving the held strategy untouched.
    pub fn restore(&mut self, bytes: &Vec<u8>) -> (r: Result<(), SerializationError>)
        ensures
            match parse_strategy(bytes@) {
                Ok(p) => (p.1 == bytes@.len() ==> r is Ok && final(self).strategy()@ == p.0
                    && final(self).decoder is Owned) && (
                p.1 != bytes@.len() ==> r == Err::<(), SerializationError>(
                    SerializationError::MalformedPayload,
                ) && *final(self) == *old(self)),
                Err(e) => r matches Err(e2) && e2 == e && *final(self) == *old(self),
            },
    {
        proof {
            assert(bytes@.skip(0) =~= bytes@);
        }
        match parse_at(bytes, 0) {
            Ok(q) => {
                if q.1 == bytes.len() {
                    self.decoder = Container::Owned(q.0);
                    Ok(())
                } else {
                    Err(SerializationError::MalformedPayload)
                }
            },
            Err(e) => Err(e),
        }
    }
}

} // verus!
