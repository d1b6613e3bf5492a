//! Decoding behavior of the built-in variants.

use tokenpipe::config::{ConfigValue, Diagnostics};
use tokenpipe::container::{Container, Decoder};
use tokenpipe::foreign::{ForeignCallback, ForeignReply};
use tokenpipe::strategy::{BPEDecoder, ByteLevel, Lowercase, Metaspace, Strategy, WordPiece};

struct NoForeign;

impl ForeignCallback for NoForeign {
    fn invoke(&self, _handle: u64, _method: &str, _args: &Vec<String>) -> ForeignReply {
        ForeignReply::Failure("no foreign environment".to_string())
    }
}

fn decode(d: &Decoder, tokens: Vec<&str>) -> Result<String, tokenpipe::errors::TransformError> {
    let mut diag = Diagnostics::new();
    d.decode(
        &NoForeign,
        &mut diag,
        tokens.into_iter().map(|t| t.to_string()).collect(),
    )
}

#[test]
fn word_piece_default_joins_and_cleans() {
    let mut diag = Diagnostics::new();
    let (_, d) = WordPiece::new(None, &mut diag).unwrap();
    assert_eq!(
        decode(&d, vec!["un", "##aff", "##able"]).unwrap(),
        "unaffable"
    );
}

#[test]
fn word_piece_cleanup_glues_punctuation() {
    let mut diag = Diagnostics::new();
    let (_, d) = WordPiece::new(None, &mut diag).unwrap();
    assert_eq!(
        decode(&d, vec!["un", "##aff", "##able", "!"]).unwrap(),
        "unaffable!"
    );
}

#[test]
fn word_piece_without_cleanup_keeps_artifacts() {
    let mut diag = Diagnostics::new();
    let kwargs = vec![("cleanup".to_string(), ConfigValue::Flag(false))];
    let (_, d) = WordPiece::new(Some(kwargs), &mut diag).unwrap();
    assert_eq!(
        decode(&d, vec!["un", "##aff", "##able", "!"]).unwrap(),
        "unaffable !"
    );
}

#[test]
fn word_piece_custom_prefix() {
    let mut diag = Diagnostics::new();
    let kwargs = vec![("prefix".to_string(), ConfigValue::Text("++".to_string()))];
    let (_, d) = WordPiece::new(Some(kwargs), &mut diag).unwrap();
    assert_eq!(decode(&d, vec!["ab", "++cd"]).unwrap(), "abcd");
}

#[test]
fn bpe_decoder_strips_suffix_and_joins() {
    let mut diag = Diagnostics::new();
    let (_, d) = BPEDecoder::new(None, &mut diag).unwrap();
    assert_eq!(decode(&d, vec!["foo</w>", "bar"]).unwrap(), "foo bar");
}

#[test]
fn bpe_decoder_custom_suffix() {
    let mut diag = Diagnostics::new();
    let kwargs = vec![("suffix".to_string(), ConfigValue::Text("~".to_string()))];
    let (_, d) = BPEDecoder::new(Some(kwargs), &mut diag).unwrap();
    assert_eq!(decode(&d, vec!["a~", "b~", "c"]).unwrap(), "a b c");
}

#[test]
fn metaspace_default_markers_become_spaces() {
    let mut diag = Diagnostics::new();
    let (_, d) = Metaspace::new(None, &mut diag).unwrap();
    assert_eq!(
        decode(&d, vec!["\u{2581}Hey", "\u{2581}friend"]).unwrap(),
        "Hey friend"
    );
}

#[test]
fn metaspace_without_prefix_space_keeps_leading_space() {
    let mut diag = Diagnostics::new();
    let kwargs = vec![("add_prefix_space".to_string(), ConfigValue::Flag(false))];
    let (_, d) = Metaspace::new(Some(kwargs), &mut diag).unwrap();
    assert_eq!(decode(&d, vec!["\u{2581}Hey"]).unwrap(), " Hey");
}

#[test]
fn byte_level_maps_alphabet_back_to_bytes() {
    let (_, d) = ByteLevel::new();
    // \u{120} stands for byte 32, the space.
    assert_eq!(
        decode(&d, vec!["Hello", "\u{120}World"]).unwrap(),
        "Hello World"
    );
}

#[test]
fn byte_level_passes_unknown_characters_through() {
    let (_, d) = ByteLevel::new();
    assert_eq!(decode(&d, vec!["a\u{500}b"]).unwrap(), "a\u{500}b");
}

#[test]
fn lowercase_decodes_by_folding_tokens() {
    let d = Decoder {
        decoder: Container::Owned(Strategy::Lowercase(Lowercase)),
    };
    assert_eq!(decode(&d, vec!["AbC", "DeF"]).unwrap(), "abcdef");
}
