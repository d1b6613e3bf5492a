//! Persisting and restoring strategies.

use tokenpipe::config::{ConfigValue, Diagnostics};
use tokenpipe::container::{Container, Decoder};
use tokenpipe::strategy::{Sequence, Strategy};
use tokenpipe::errors::SerializationError;
use tokenpipe::foreign::{ForeignCallback, ForeignReply};
use tokenpipe::strategy::{BPEDecoder, ByteLevel, Metaspace, WordPiece};

struct NoForeign;

impl ForeignCallback for NoForeign {
    fn invoke(&self, _handle: u64, _method: &str, _args: &Vec<String>) -> ForeignReply {
        ForeignReply::Failure("no foreign environment".to_string())
    }
}

fn decode(d: &Decoder, tokens: &[&str]) -> String {
    let mut diag = Diagnostics::new();
    d.decode(
        &NoForeign,
        &mut diag,
        tokens.iter().map(|t| t.to_string()).collect(),
    )
    .unwrap()
}

/// A text in the persisted form: its length, then one number per
/// character, all eight little-endian bytes.
fn text_bytes(s: &str) -> Vec<u8> {
    let mut v = (s.chars().count() as u64).to_le_bytes().to_vec();
    for c in s.chars() {
        v.extend_from_slice(&(c as u64).to_le_bytes());
    }
    v
}

fn round_trip(original: &Decoder) -> Decoder {
    let bytes = original.persist().unwrap();
    let (_, mut fresh) = ByteLevel::new();
    fresh.restore(&bytes).unwrap();
    fresh
}

#[test]
fn byte_level_round_trips() {
    let (_, d) = ByteLevel::new();
    let restored = round_trip(&d);
    let corpus = ["Hello", "\u{120}World"];
    assert_eq!(decode(&d, &corpus), decode(&restored, &corpus));
}

#[test]
fn word_piece_round_trips() {
    let mut diag = Diagnostics::new();
    let kwargs = vec![
        ("prefix".to_string(), ConfigValue::Text("++".to_string())),
        ("cleanup".to_string(), ConfigValue::Flag(false)),
    ];
    let (_, d) = WordPiece::new(Some(kwargs), &mut diag).unwrap();
    let restored = round_trip(&d);
    let corpus = ["un", "++aff", "++able", "!"];
    assert_eq!(decode(&d, &corpus), decode(&restored, &corpus));
    assert_eq!(decode(&restored, &corpus), "unaffable !");
}

#[test]
fn metaspace_round_trips() {
    let mut diag = Diagnostics::new();
    let kwargs = vec![("replacement".to_string(), ConfigValue::Text("_".to_string()))];
    let (_, d) = Metaspace::new(Some(kwargs), &mut diag).unwrap();
    let restored = round_trip(&d);
    let corpus = ["_Hey", "_friend"];
    assert_eq!(decode(&d, &corpus), decode(&restored, &corpus));
    assert_eq!(decode(&restored, &corpus), "Hey friend");
}

#[test]
fn bpe_decoder_round_trips() {
    let mut diag = Diagnostics::new();
    let (_, d) = BPEDecoder::new(None, &mut diag).unwrap();
    let restored = round_trip(&d);
    let corpus = ["foo</w>", "bar"];
    assert_eq!(decode(&d, &corpus), decode(&restored, &corpus));
}

#[test]
fn sequence_round_trips() {
    let mut diag = Diagnostics::new();
    let (wp, _) = WordPiece::new(None, &mut diag).unwrap();
    let (bpe, _) = BPEDecoder::new(None, &mut diag).unwrap();
    let d = Decoder {
        decoder: Container::Owned(Strategy::Sequence(Sequence::new(vec![
            Strategy::WordPiece(wp),
            Strategy::BPEDecoder(bpe),
        ]))),
    };
    let restored = round_trip(&d);
    let corpus = ["foo", "##baz</w>", "qux"];
    assert_eq!(decode(&d, &corpus), decode(&restored, &corpus));
}

#[test]
fn nested_sequence_round_trips() {
    let mut diag = Diagnostics::new();
    let (wp, _) = WordPiece::new(None, &mut diag).unwrap();
    let (bpe, _) = BPEDecoder::new(None, &mut diag).unwrap();
    let inner = Sequence::new(vec![Strategy::WordPiece(wp)]);
    let d = Decoder {
        decoder: Container::Owned(Strategy::Sequence(Sequence::new(vec![
            Strategy::Sequence(inner),
            Strategy::BPEDecoder(bpe),
        ]))),
    };
    let restored = round_trip(&d);
    let corpus = ["foo", "##baz</w>", "qux"];
    assert_eq!(decode(&d, &corpus), decode(&restored, &corpus));
}

#[test]
fn restoring_replaces_contents_wholesale() {
    let mut diag = Diagnostics::new();
    let (_, bpe) = BPEDecoder::new(None, &mut diag).unwrap();
    let bytes = bpe.persist().unwrap();
    let (_, mut d) = Metaspace::new(None, &mut diag).unwrap();
    d.restore(&bytes).unwrap();
    assert_eq!(decode(&d, &["foo</w>", "bar"]), "foo bar");
}

#[test]
fn persisting_a_foreign_bridge_always_fails() {
    let d = Decoder::custom(7);
    let err = d.persist().unwrap_err();
    assert_eq!(err, SerializationError::NotSerializable);
    assert_eq!(err.message(), "Custom PyDecoder cannot be serialized");
    assert!(err.message().contains("cannot be serialized"));
}

#[test]
fn restoring_into_the_foreign_tag_always_fails() {
    let (_, mut d) = ByteLevel::new();
    let plain = text_bytes("PyDecoder");
    let err = d.restore(&plain).unwrap_err();
    assert_eq!(err, SerializationError::NotDeserializable);
    assert_eq!(err.message(), "PyDecoder cannot be deserialized");
    let mut with_payload = text_bytes("PyDecoder");
    with_payload.extend_from_slice(&text_bytes("anything"));
    assert_eq!(
        d.restore(&with_payload).unwrap_err(),
        SerializationError::NotDeserializable
    );
}

#[test]
fn unrecognized_tag_is_its_own_failure() {
    let (_, mut d) = ByteLevel::new();
    let bytes = text_bytes("Zorp");
    assert_eq!(d.restore(&bytes).unwrap_err(), SerializationError::UnknownTag);
}

#[test]
fn truncated_payload_is_malformed() {
    let (_, mut d) = ByteLevel::new();
    // A WordPiece tag with no configuration after it.
    let bytes = text_bytes("WordPiece");
    assert_eq!(
        d.restore(&bytes).unwrap_err(),
        SerializationError::MalformedPayload
    );
}

#[test]
fn trailing_bytes_are_malformed() {
    let (_, mut d) = ByteLevel::new();
    let mut bytes = text_bytes("ByteLevel");
    bytes.push(0);
    assert_eq!(
        d.restore(&bytes).unwrap_err(),
        SerializationError::MalformedPayload
    );
}

#[test]
fn failed_restore_leaves_the_held_strategy_in_place() {
    let mut diag = Diagnostics::new();
    let (_, mut d) = BPEDecoder::new(None, &mut diag).unwrap();
    assert!(d.restore(&text_bytes("Zorp")).is_err());
    assert_eq!(decode(&d, &["foo</w>", "bar"]), "foo bar");
}

#[test]
fn tags_name_the_variants() {
    let mut diag = Diagnostics::new();
    let (_, d) = ByteLevel::new();
    assert_eq!(d.decoder.held().tag(), "ByteLevel");
    let (wp, _) = WordPiece::new(None, &mut diag).unwrap();
    assert_eq!(Strategy::WordPiece(wp).tag(), "WordPiece");
    assert_eq!(
        Strategy::Sequence(Sequence::new(vec![])).tag(),
        "Sequence"
    );
    let custom = Decoder::custom(3);
    assert_eq!(custom.decoder.held().tag(), "PyDecoder");
}
