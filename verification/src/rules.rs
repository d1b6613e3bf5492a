//! The decoding rules of the built-in variants, as functions from a token
//! list to text, each specified by a spec function on sequences of
//! characters.

use vstd::prelude::*;

use crate::text::{chars_of, lower_of, string_of};

verus! {

// ---------------------------------------------------------------------------
// Shared sequence helpers
// ---------------------------------------------------------------------------

/// All tokens, concatenated in order.
pub open spec fn concat_all(tokens: Seq<Seq<char>>) -> Seq<char>
    decreases tokens.len(),
{
    if tokens.len() == 0 {
        Seq::empty()
    } else {
        concat_all(tokens.drop_last()) + tokens.last()
    }
}

pub open spec fn starts_with(t: Seq<char>, p: Seq<char>) -> bool {
    p.len() <= t.len() && t.take(p.len() as int) == p
}

pub open spec fn ends_with(t: Seq<char>, s: Seq<char>) -> bool {
    s.len() <= t.len() && t.skip(t.len() - s.len()) == s
}

pub(crate) proof fn lemma_take_step<A>(s: Seq<A>, i: int)
    requires
        0 <= i < s.len(),
    ensures
        s.take(i + 1).drop_last() =~= s.take(i),
        s.take(i + 1).last() == s[i],
{
}

pub(crate) proof fn lemma_skip_step<A>(s: Seq<A>, i: int)
    requires
        0 <= i < s.len(),
    ensures
        s.skip(i).drop_first() =~= s.skip(i + 1),
        s.skip(i)[0] == s[i],
        s.skip(i).len() == s.len() - i,
{
}

/// Append `t[from..to]` to `out`.
fn push_part(out: &mut Vec<char>, t: &Vec<char>, from: usize, to: usize)
    requires
        from <= to <= t@.len(),
    ensures
        final(out)@ == old(out)@ + t@.subrange(from as int, to as int),
{
    let mut i: usize = from;
    while i < to
        invariant
            from <= i <= to <= t@.len(),
            out@ == old(out)@ + t@.subrange(from as int, i as int),
        decreases to - i,
    {
        proof {
            assert(t@.subrange(from as int, i + 1) =~= t@.subrange(from as int, i as int).push(
                t@[i as int],
            ));
        }
        out.push(t[i]);
        i = i + 1;
    }
    proof {
        assert(out@ =~= old(out)@ + t@.subrange(from as int, to as int));
    }
}

/// Whether `t` begins with `p`.
fn has_prefix(t: &Vec<char>, p: &Vec<char>) -> (r: bool)
    ensures
        r == starts_with(t@, p@),
{
    if p.len() > t.len() {
        return false;
    }
    let mut i: usize = 0;
    while i < p.len()
        invariant
            i <= p@.len() <= t@.len(),
            forall|k: int| 0 <= k < i ==> t@[k] == p@[k],
        decreases p@.len() - i,
    {
        if t[i] != p[i] {
            proof {
                assert(t@.take(p@.len() as int)[i as int] == t@[i as int]);
            }
            return false;
        }
        i = i + 1;
    }
    proof {
        assert(t@.take(p@.len() as int) =~= p@);
    }
    true
}

/// Whether `t` ends with `s`.
fn has_suffix(t: &Vec<char>, s: &Vec<char>) -> (r: bool)
    ensures
        r == ends_with(t@, s@),
{
    if s.len() > t.len() {
        return false;
    }
    let base: usize = t.len() - s.len();
    let mut i: usize = 0;
    while i < s.len()
        invariant
            i <= s@.len() <= t@.len(),
            t@.len() <= usize::MAX,
            base == t@.len() - s@.len(),
            forall|k: int| 0 <= k < i ==> t@[base + k] == s@[k],
        decreases s@.len() - i,
    {
        if t[base + i] != s[i] {
            proof {
                assert(t@.skip(base as int)[i as int] == t@[base + i]);
            }
            return false;
        }
        i = i + 1;
    }
    proof {
        assert(t@.skip(base as int) =~= s@);
    }
    true
}

/// All tokens concatenated, as characters.
pub(crate) fn concat_chars(tokens: &Vec<String>) -> (r: Vec<char>)
    ensures
        r@ == concat_all(tokens.deep_view()),
{
    let ghost tv = tokens.deep_view();
    let mut out: Vec<char> = Vec::new();
    let mut j: usize = 0;
    while j < tokens.len()
        invariant
            j <= tokens@.len(),
            tv == tokens.deep_view(),
            out@ == concat_all(tv.take(j as int)),
        decreases tokens@.len() - j,
    {
        let t = chars_of(tokens[j].as_str());
        proof {
            assert(t@ == tv[j as int]);
        }
        push_part(&mut out, &t, 0, t.len());
        proof {
            lemma_take_step(tv, j as int);
            assert(t@.subrange(0, t@.len() as int) =~= t@);
        }
        j = j + 1;
    }
    proof {
        assert(tv.take(tokens@.len() as int) =~= tv);
    }
    out
}

// ---------------------------------------------------------------------------
// ByteLevel: a reversible byte-to-unicode alphabet, decoded character-wise
// ---------------------------------------------------------------------------

/// Bytes that the alphabet keeps as their own code point.
pub open spec fn printable_byte(b: u8) -> bool {
    (33 <= b && b <= 126) || (161 <= b && b <= 172) || 174 <= b
}

/// The alphabet character that stands for byte `b`, as a code point.
pub open spec fn byte_level_code(b: u8) -> u32 {
    if printable_byte(b) {
        b as u32
    } else if b <= 32 {
        (b + 256) as u32
    } else if b <= 160 {
        (b + 162) as u32
    } else {
        323
    }
}

/// Whether code point `x` belongs to the alphabet.
pub open spec fn in_byte_alphabet(x: u32) -> bool {
    (33 <= x && x <= 126) || (161 <= x && x <= 172) || (174 <= x && x <= 255) || (256 <= x && x
        <= 323)
}

/// The byte that alphabet code point `x` stands for.
pub open spec fn byte_of_code(x: u32) -> u8 {
    if 256 <= x && x <= 288 {
        (x - 256) as u8
    } else if 289 <= x && x <= 322 {
        (x - 162) as u8
    } else if x == 323 {
        173u8
    } else {
        x as u8
    }
}

/// One character decoded: alphabet characters turn back into their byte,
/// anything else passes through unchanged.
pub open spec fn byte_level_char(c: char) -> char {
    if in_byte_alphabet(c as u32) {
        byte_of_code(c as u32) as char
    } else {
        c
    }
}

/// The whole text decoded character-wise.
pub open spec fn byte_level_decoded(s: Seq<char>) -> Seq<char>
    decreases s.len(),
{
    if s.len() == 0 {
        Seq::empty()
    } else {
        byte_level_decoded(s.drop_last()).push(byte_level_char(s.last()))
    }
}

/// The alphabet is reversible: decoding the character that encodes byte `b`
/// gives `b` back.
pub proof fn lemma_byte_level_reversible(b: u8)
    ensures
        in_byte_alphabet(byte_level_code(b)),
        byte_level_char(byte_level_code(b) as char) == b as char,
{
}

/// ByteLevel decoding: concatenate the tokens and map every character
/// through the alphabet's inverse.
pub fn byte_level_decode(tokens: &Vec<String>) -> (r: String)
    ensures
        r@ == byte_level_decoded(concat_all(tokens.deep_view())),
{
    let all = concat_chars(tokens);
    let mut out: Vec<char> = Vec::new();
    let mut i: usize = 0;
    while i < all.len()
        invariant
            i <= all@.len(),
            all@ == concat_all(tokens.deep_view()),
            out@ == byte_level_decoded(all@.take(i as int)),
        decreases all@.len() - i,
    {
        let c = all[i];
        proof {
            vstd::utf8::char_is_scalar(c);
        }
        let x: u32 = c as u32;
        let mapped: char = if (33 <= x && x <= 126) || (161 <= x && x <= 172) || (174 <= x && x
            <= 255) {
            c
        } else if 256 <= x && x <= 288 {
            ((x - 256) as u8) as char
        } else if 289 <= x && x <= 322 {
            ((x - 162) as u8) as char
        } else if x == 323 {
            173u8 as char
        } else {
            c
        };
        proof {
            vstd::utf8::char_u32_cast(c, x);
            assert(mapped == byte_level_char(c));
            lemma_take_step(all@, i as int);
        }
        out.push(mapped);
        i = i + 1;
    }
    proof {
        assert(all@.take(all@.len() as int) =~= all@);
    }
    string_of(&out)
}

// ---------------------------------------------------------------------------
// WordPiece: strip the continuation prefix, join, optionally clean up
// ---------------------------------------------------------------------------

/// How one continuation token joins: the prefix is stripped, otherwise a
/// space separates it from what came before.
pub open spec fn word_piece_piece(t: Seq<char>, prefix: Seq<char>) -> Seq<char> {
    if starts_with(t, prefix) {
        t.skip(prefix.len() as int)
    } else {
        seq![' '] + t
    }
}

/// All tokens joined; the first token is kept whole.
pub open spec fn word_piece_joined(tokens: Seq<Seq<char>>, prefix: Seq<char>) -> Seq<char>
    decreases tokens.len(),
{
    if tokens.len() == 0 {
        Seq::empty()
    } else if tokens.len() == 1 {
        tokens[0]
    } else {
        word_piece_joined(tokens.drop_last(), prefix) + word_piece_piece(tokens.last(), prefix)
    }
}

/// Punctuation that the cleanup pass glues back to the preceding word.
pub open spec fn cleanup_punct(c: char) -> bool {
    c == '.' || c == ',' || c == '?' || c == '!' || c == '\''
}

/// The cleanup pass: a space directly before such punctuation is removed.
pub open spec fn cleaned(s: Seq<char>) -> Seq<char>
    decreases s.len(),
{
    if s.len() == 0 {
        Seq::empty()
    } else if s.len() >= 2 && s[0] == ' ' && cleanup_punct(s[1]) {
        cleaned(s.drop_first())
    } else {
        seq![s[0]] + cleaned(s.drop_first())
    }
}

/// The full WordPiece decoding.
pub open spec fn word_piece_decoded(tokens: Seq<Seq<char>>, prefix: Seq<char>, cleanup: bool) -> Seq<
    char,
> {
    if cleanup {
        cleaned(word_piece_joined(tokens, prefix))
    } else {
        word_piece_joined(tokens, prefix)
    }
}

/// Decoding with cleanup equals decoding without it and then running the
/// cleanup pass: turning cleanup off preserves the whitespace artifacts
/// exactly, and changes nothing else.
pub proof fn lemma_cleanup_only_removes_artifacts(
    tokens: Seq<Seq<char>>,
    prefix: Seq<char>,
)
    ensures
        word_piece_decoded(tokens, prefix, true) == cleaned(
            word_piece_decoded(tokens, prefix, false),
        ),
{
}

proof fn lemma_cleaned_unfold(s: Seq<char>, i: int)
    requires
        0 <= i < s.len(),
    ensures
        i + 1 < s.len() && s[i] == ' ' && cleanup_punct(s[i + 1]) ==> cleaned(s.skip(i)) == cleaned(
            s.skip(i + 1),
        ),
        !(i + 1 < s.len() && s[i] == ' ' && cleanup_punct(s[i + 1])) ==> cleaned(s.skip(i))
            == seq![s[i]] + cleaned(s.skip(i + 1)),
{
    lemma_skip_step(s, i);
    if i + 1 < s.len() {
        assert(s.skip(i)[1] == s[i + 1]);
    }
}

/// The cleanup pass, executed.
fn cleanup_chars(s: &Vec<char>) -> (r: Vec<char>)
    ensures
        r@ == cleaned(s@),
{
    let mut out: Vec<char> = Vec::new();
    let mut i: usize = 0;
    proof {
        assert(s@.skip(0) =~= s@);
        assert(Seq::<char>::empty() + cleaned(s@) =~= cleaned(s@));
    }
    while i < s.len()
        invariant
            i <= s@.len(),
            cleaned(s@) == out@ + cleaned(s@.skip(i as int)),
        decreases s@.len() - i,
    {
        proof {
            lemma_cleaned_unfold(s@, i as int);
        }
        if s[i] == ' ' && i + 1 < s.len() && (s[i + 1] == '.' || s[i + 1] == ',' || s[i + 1] == '?'
            || s[i + 1] == '!' || s[i + 1] == '\'') {
            // drop the space
        } else {
            proof {
                assert(out@ + (seq![s@[i as int]] + cleaned(s@.skip(i + 1))) =~= out@.push(
                    s@[i as int],
                ) + cleaned(s@.skip(i + 1)));
            }
            out.push(s[i]);
        }
        i = i + 1;
    }
    proof {
        assert(s@.skip(s@.len() as int) =~= Seq::<char>::empty());
        assert(out@ + Seq::<char>::empty() =~= out@);
    }
    out
}

/// WordPiece decoding, executed.
pub fn word_piece_decode(tokens: &Vec<String>, prefix: &str, cleanup: bool) -> (r: String)
    ensures
        r@ == word_piece_decoded(tokens.deep_view(), prefix@, cleanup),
{
    let p = chars_of(prefix);
    let ghost tv = tokens.deep_view();
    let mut out: Vec<char> = Vec::new();
    let mut j: usize = 0;
    while j < tokens.len()
        invariant
            j <= tokens@.len(),
            tv == tokens.deep_view(),
            p@ == prefix@,
            out@ == word_piece_joined(tv.take(j as int), prefix@),
        decreases tokens@.len() - j,
    {
        let t = chars_of(tokens[j].as_str());
        proof {
            assert(t@ == tv[j as int]);
            lemma_take_step(tv, j as int);
        }
        if j == 0 {
            push_part(&mut out, &t, 0, t.len());
            proof {
                assert(t@.subrange(0, t@.len() as int) =~= t@);
                assert(word_piece_joined(tv.take(1), prefix@) == tv.take(1)[0]);
            }
        } else {
            if has_prefix(&t, &p) {
                push_part(&mut out, &t, p.len(), t.len());
                proof {
                    assert(t@.subrange(p@.len() as int, t@.len() as int) =~= t@.skip(
                        p@.len() as int,
                    ));
                }
            } else {
                out.push(' ');
                push_part(&mut out, &t, 0, t.len());
                proof {
                    assert(t@.subrange(0, t@.len() as int) =~= t@);
                    assert(word_piece_joined(tv.take(j as int), prefix@).push(' ') + t@
                        =~= word_piece_joined(tv.take(j as int), prefix@) + (seq![' '] + t@));
                }
            }
        }
        j = j + 1;
    }
    proof {
        assert(tv.take(tokens@.len() as int) =~= tv);
    }
    if cleanup {
        let cl = cleanup_chars(&out);
        string_of(&cl)
    } else {
        string_of(&out)
    }
}

// ---------------------------------------------------------------------------
// Metaspace: the marker character becomes a space
// ---------------------------------------------------------------------------

/// Every occurrence of the marker replaced by a space.
pub open spec fn marker_mapped(s: Seq<char>, marker: char) -> Seq<char>
    decreases s.len(),
{
    if s.len() == 0 {
        Seq::empty()
    } else {
        marker_mapped(s.drop_last(), marker).push(
            if s.last() == marker {
                ' '
            } else {
                s.last()
            },
        )
    }
}

/// The full Metaspace decoding: if a prefix space was added when encoding,
/// a leading marker is dropped rather than mapped.
pub open spec fn metaspace_decoded(
    tokens: Seq<Seq<char>>,
    marker: char,
    add_prefix_space: bool,
) -> Seq<char> {
    let all = concat_all(tokens);
    if add_prefix_space && all.len() > 0 && all[0] == marker {
        marker_mapped(all.drop_first(), marker)
    } else {
        marker_mapped(all, marker)
    }
}

fn marker_map_chars(s: &Vec<char>, from: usize, marker: char) -> (r: Vec<char>)
    requires
        from <= s@.len(),
    ensures
        r@ == marker_mapped(s@.skip(from as int), marker),
{
    let mut out: Vec<char> = Vec::new();
    let mut i: usize = from;
    while i < s.len()
        invariant
            from <= i <= s@.len(),
            out@ == marker_mapped(s@.subrange(from as int, i as int), marker),
        decreases s@.len() - i,
    {
        proof {
            assert(s@.subrange(from as int, i + 1).drop_last() =~= s@.subrange(
                from as int,
                i as int,
            ));
            assert(s@.subrange(from as int, i + 1).last() == s@[i as int]);
        }
        if s[i] == marker {
            out.push(' ');
        } else {
            out.push(s[i]);
        }
        i = i + 1;
    }
    proof {
        assert(s@.subrange(from as int, s@.len() as int) =~= s@.skip(from as int));
    }
    out
}

/// Metaspace decoding, executed.
pub fn metaspace_decode(tokens: &Vec<String>, marker: char, add_prefix_space: bool) -> (r: String)
    ensures
        r@ == metaspace_decoded(tokens.deep_view(), marker, add_prefix_space),
{
    let all = concat_chars(tokens);
    let mapped: Vec<char> = if add_prefix_space && all.len() > 0 && all[0] == marker {
        proof {
            assert(all@.skip(1) =~= all@.drop_first());
        }
        marker_map_chars(&all, 1, marker)
    } else {
        proof {
            assert(all@.skip(0) =~= all@);
        }
        marker_map_chars(&all, 0, marker)
    };
    string_of(&mapped)
}

// ---------------------------------------------------------------------------
// BPEDecoder: strip the end-of-word suffix, join with single spaces
// ---------------------------------------------------------------------------

/// One token with its end-of-word suffix stripped, when present.
pub open spec fn bpe_piece(t: Seq<char>, suffix: Seq<char>) -> Seq<char> {
    if ends_with(t, suffix) {
        t.take(t.len() - suffix.len())
    } else {
        t
    }
}

/// All stripped tokens joined with single spaces.
pub open spec fn bpe_decoded(tokens: Seq<Seq<char>>, suffix: Seq<char>) -> Seq<char>
    decreases tokens.len(),
{
    if tokens.len() == 0 {
        Seq::empty()
    } else if tokens.len() == 1 {
        bpe_piece(tokens[0], suffix)
    } else {
        bpe_decoded(tokens.drop_last(), suffix) + seq![' '] + bpe_piece(tokens.last(), suffix)
    }
}

/// BPEDecoder decoding, executed.
pub fn bpe_decode(tokens: &Vec<String>, suffix: &str) -> (r: String)
    ensures
        r@ == bpe_decoded(tokens.deep_view(), suffix@),
{
    let sfx = chars_of(suffix);
    let ghost tv = tokens.deep_view();
    let mut out: Vec<char> = Vec::new();
    let mut j: usize = 0;
    while j < tokens.len()
        invariant
            j <= tokens@.len(),
            tv == tokens.deep_view(),
            sfx@ == suffix@,
            out@ == bpe_decoded(tv.take(j as int), suffix@),
        decreases tokens@.len() - j,
    {
        let t = chars_of(tokens[j].as_str());
        proof {
            assert(t@ == tv[j as int]);
            lemma_take_step(tv, j as int);
        }
        if j > 0 {
            out.push(' ');
        }
        if has_suffix(&t, &sfx) {
            push_part(&mut out, &t, 0, t.len() - sfx.len());
            proof {
                assert(t@.subrange(0, t@.len() - sfx@.len()) =~= t@.take(t@.len() - sfx@.len()));
            }
        } else {
            push_part(&mut out, &t, 0, t.len());
            proof {
                assert(t@.subrange(0, t@.len() as int) =~= t@);
            }
        }
        proof {
            if j == 0 {
                assert(bpe_decoded(tv.take(1), suffix@) == bpe_piece(tv.take(1)[0], suffix@));
            } else {
                assert(bpe_decoded(tv.take(j as int), suffix@).push(' ') + bpe_piece(
                    tv[j as int],
                    suffix@,
                ) =~= bpe_decoded(tv.take(j as int), suffix@) + seq![' '] + bpe_piece(
                    tv[j as int],
                    suffix@,
                ));
            }
        }
        j = j + 1;
    }
    proof {
        assert(tv.take(tokens@.len() as int) =~= tv);
    }
    string_of(&out)
}

// ---------------------------------------------------------------------------
// Lowercase, applied token-wise when it stands in a decoder sequence
// ---------------------------------------------------------------------------

/// Every token case-folded.
pub open spec fn lowered_all(tokens: Seq<Seq<char>>) -> Seq<Seq<char>>
    decreases tokens.len(),
{
    if tokens.len() == 0 {
        Seq::empty()
    } else {
        lowered_all(tokens.drop_last()).push(lower_of(tokens.last()))
    }
}

/// Case-fold every token.
pub fn lowercase_tokens(tokens: &Vec<String>) -> (r: Vec<String>)
    ensures
        r.deep_view() == lowered_all(tokens.deep_view()),
{
    let ghost tv = tokens.deep_view();
    let mut out: Vec<String> = Vec::new();
    let mut j: usize = 0;
    while j < tokens.len()
        invariant
            j <= tokens@.len(),
            tv == tokens.deep_view(),
            out.deep_view() == lowered_all(tv.take(j as int)),
        decreases tokens@.len() - j,
    {
        let ghost before = out.deep_view();
        let lowered = crate::text::lowercase_of(tokens[j].as_str());
        out.push(lowered);
        proof {
            lemma_take_step(tv, j as int);
            assert(tokens@[j as int]@ == tv[j as int]);
            assert(out.deep_view() =~= before.push(lower_of(tv[j as int])));
        }
        j = j + 1;
    }
    proof {
        assert(tv.take(tokens@.len() as int) =~= tv);
    }
    out
}

} // verus!
