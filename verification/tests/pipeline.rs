//! The container, the sequence, construction, and the foreign bridge.

use std::rc::Rc;

use tokenpipe::config::{ConfigValue, Diagnostics};
use tokenpipe::container::{Container, Decoder};
use tokenpipe::errors::{ConfigurationError, TransformError};
use tokenpipe::foreign::{ForeignCallback, ForeignReply, ForeignValue};
use tokenpipe::strategy::{BPEDecoder, Lowercase, Sequence, Strategy};
use tokenpipe::text::NormalizedString;

struct NoForeign;

impl ForeignCallback for NoForeign {
    fn invoke(&self, _handle: u64, _method: &str, _args: &Vec<String>) -> ForeignReply {
        ForeignReply::Failure("no foreign environment".to_string())
    }
}

/// Joins the arguments; stands in for an externally supplied object.
struct Joining;

impl ForeignCallback for Joining {
    fn invoke(&self, _handle: u64, method: &str, args: &Vec<String>) -> ForeignReply {
        assert_eq!(method, "decode");
        ForeignReply::Value(ForeignValue::Text(args.join("+")))
    }
}

struct Failing;

impl ForeignCallback for Failing {
    fn invoke(&self, _handle: u64, _method: &str, _args: &Vec<String>) -> ForeignReply {
        ForeignReply::Failure("boom".to_string())
    }
}

struct NotAString;

impl ForeignCallback for NotAString {
    fn invoke(&self, _handle: u64, _method: &str, _args: &Vec<String>) -> ForeignReply {
        ForeignReply::Value(ForeignValue::Other)
    }
}

#[test]
fn empty_sequence_normalize_is_a_no_op() {
    let sq = Sequence::new(vec![]);
    let mut buf = NormalizedString::new("AbC def".to_string());
    assert!(sq.normalize(&mut buf).is_ok());
    assert_eq!(buf.get(), "AbC def");
}

#[test]
fn sequence_applies_members_in_order() {
    let sq = Sequence::new(vec![Strategy::Lowercase(Lowercase)]);
    let mut buf = NormalizedString::new("AbC".to_string());
    assert!(sq.normalize(&mut buf).is_ok());
    assert_eq!(buf.get(), "abc");

    // The same two stages, run one after the other by hand, agree with
    // the composite.
    let pair = Sequence::new(vec![
        Strategy::Lowercase(Lowercase),
        Strategy::Lowercase(Lowercase),
    ]);
    let mut composite = NormalizedString::new("MiXeD".to_string());
    assert!(pair.normalize(&mut composite).is_ok());
    let mut by_hand = NormalizedString::new("MiXeD".to_string());
    Lowercase.normalize(&mut by_hand).unwrap();
    Lowercase.normalize(&mut by_hand).unwrap();
    assert_eq!(composite.get(), by_hand.get());
}

#[test]
fn lowercase_normalize_folds_in_place() {
    let mut buf = NormalizedString::new("HeLLo World".to_string());
    assert!(Lowercase.normalize(&mut buf).is_ok());
    assert_eq!(buf.get(), "hello world");
}

#[test]
fn lowercase_normalize_is_idempotent() {
    // A dotted capital I expands under folding; a second fold must then
    // leave the buffer exactly as it is.
    let mut buf = NormalizedString::new("\u{130}STANBUL \u{3a3}\u{3a3}".to_string());
    assert!(Lowercase.normalize(&mut buf).is_ok());
    let once = buf.get().to_string();
    assert!(Lowercase.normalize(&mut buf).is_ok());
    assert_eq!(buf.get(), once);
}

#[test]
fn swapping_decoder_stages_can_change_the_result() {
    let mut diag = Diagnostics::new();
    let a = vec![("suffix".to_string(), ConfigValue::Text("x".to_string()))];
    let b = vec![("suffix".to_string(), ConfigValue::Text("ax".to_string()))];
    let (sa, _) = BPEDecoder::new(Some(a.clone()), &mut diag).unwrap();
    let (sb, _) = BPEDecoder::new(Some(b.clone()), &mut diag).unwrap();
    let (sa2, _) = BPEDecoder::new(Some(a), &mut diag).unwrap();
    let (sb2, _) = BPEDecoder::new(Some(b), &mut diag).unwrap();
    let forward = Decoder {
        decoder: Container::Owned(Strategy::Sequence(Sequence::new(vec![
            Strategy::BPEDecoder(sa),
            Strategy::BPEDecoder(sb),
        ]))),
    };
    let swapped = Decoder {
        decoder: Container::Owned(Strategy::Sequence(Sequence::new(vec![
            Strategy::BPEDecoder(sb2),
            Strategy::BPEDecoder(sa2),
        ]))),
    };
    let out1 = forward
        .decode(&NoForeign, &mut diag, vec!["aax".to_string()])
        .unwrap();
    let out2 = swapped
        .decode(&NoForeign, &mut diag, vec!["aax".to_string()])
        .unwrap();
    assert_eq!(out1, "aa");
    assert_eq!(out2, "a");
    assert_ne!(out1, out2);
}

#[test]
fn shared_and_owned_containers_behave_identically() {
    let mut diag = Diagnostics::new();
    let (bpe, _) = BPEDecoder::new(None, &mut diag).unwrap();
    let strategy = Strategy::BPEDecoder(bpe);
    let shared = Decoder {
        decoder: Container::Shared(Rc::new(strategy)),
    };
    let (bpe2, _) = BPEDecoder::new(None, &mut diag).unwrap();
    let owned = Decoder {
        decoder: Container::Owned(Strategy::BPEDecoder(bpe2)),
    };
    let tokens = || vec!["foo</w>".to_string(), "bar".to_string()];
    assert_eq!(
        owned.decode(&NoForeign, &mut diag, tokens()).unwrap(),
        shared.decode(&NoForeign, &mut diag, tokens()).unwrap()
    );
}

#[test]
fn container_execute_applies_the_operation() {
    let container = Container::Owned(Strategy::Lowercase(Lowercase));
    let is_lowercase = container.execute(|s| matches!(s, Strategy::Lowercase(_)));
    assert!(is_lowercase);
}

#[test]
fn custom_decoder_delegates_to_the_callback() {
    let d = Decoder::custom(7);
    let mut diag = Diagnostics::new();
    let out = d
        .decode(
            &Joining,
            &mut diag,
            vec!["a".to_string(), "b".to_string()],
        )
        .unwrap();
    assert_eq!(out, "a+b");
}

#[test]
fn foreign_failure_becomes_fixed_error_with_detail_reported() {
    let d = Decoder::custom(1);
    let mut diag = Diagnostics::new();
    let err = d.decode(&Failing, &mut diag, vec!["x".to_string()]).unwrap_err();
    assert_eq!(err, TransformError::ForeignCallFailed);
    assert_eq!(err.message(), "Error while calling `decode`");
    assert_eq!(diag.notes().len(), 1);
    assert_eq!(diag.notes()[0], "boom");
}

#[test]
fn foreign_non_string_result_becomes_fixed_error() {
    let d = Decoder::custom(1);
    let mut diag = Diagnostics::new();
    let err = d
        .decode(&NotAString, &mut diag, vec!["x".to_string()])
        .unwrap_err();
    assert_eq!(err, TransformError::ForeignNotString);
    assert_eq!(err.message(), "`decode` is expected to return a str");
    assert_eq!(diag.notes().len(), 0);
}

#[test]
fn metaspace_rejects_empty_replacement() {
    let mut diag = Diagnostics::new();
    let kwargs = vec![("replacement".to_string(), ConfigValue::Text("".to_string()))];
    let err = tokenpipe::strategy::Metaspace::new(Some(kwargs), &mut diag).unwrap_err();
    assert_eq!(err, ConfigurationError::ReplacementNotOneChar);
    assert_eq!(err.message(), "replacement must be a character");
}

#[test]
fn metaspace_rejects_two_character_replacement() {
    let mut diag = Diagnostics::new();
    let kwargs = vec![(
        "replacement".to_string(),
        ConfigValue::Text("ab".to_string()),
    )];
    let err = tokenpipe::strategy::Metaspace::new(Some(kwargs), &mut diag).unwrap_err();
    assert_eq!(err, ConfigurationError::ReplacementNotOneChar);
}

#[test]
fn wrong_typed_known_key_is_a_configuration_error() {
    let mut diag = Diagnostics::new();
    let kwargs = vec![("prefix".to_string(), ConfigValue::Flag(true))];
    let err = tokenpipe::strategy::WordPiece::new(Some(kwargs), &mut diag).unwrap_err();
    assert_eq!(err, ConfigurationError::WrongValueType);
}

#[test]
fn unknown_keys_are_ignored_and_reported() {
    let mut diag = Diagnostics::new();
    let kwargs = vec![
        ("colour".to_string(), ConfigValue::Text("red".to_string())),
        ("cleanup".to_string(), ConfigValue::Flag(false)),
    ];
    let (wp, _) = tokenpipe::strategy::WordPiece::new(Some(kwargs), &mut diag).unwrap();
    assert_eq!(wp.prefix, "##");
    assert!(!wp.cleanup);
    assert_eq!(diag.notes().len(), 1);
    assert_eq!(diag.notes()[0], "colour");
}
