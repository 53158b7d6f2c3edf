//! Data observed from the remote label store, and path-segment encoding for
//! the names it keys on.
//!
//! A [`GitHubLabel`] is one label as reported by the store's API; the core
//! treats the snapshot of these as read-only for a whole reconciliation
//! pass.  [`encode_path_segment`] prepares a label name for use inside a URL
//! path: every character outside the RFC 3986 unreserved set is written as
//! the percent-encoded bytes of its UTF-8 encoding.

use vstd::prelude::*;
use vstd::string::StrSliceExecFns;
use vstd::utf8::encode_scalar;
use vstd::utf8::char_is_scalar;

use crate::config::LabelConfig;

pub use crate::similarity::calculate_label_similarity;

verus! {

/// Mathematical content of a [`GitHubLabel`]: every string as its character
/// sequence.
pub ghost struct GitHubLabelV {
    pub id: u64,
    pub name: Seq<char>,
    pub color: Seq<char>,
    pub description: Option<Seq<char>>,
    pub default: bool,
    pub url: Seq<char>,
}

/// One label as observed in the remote repository.
#[derive(Debug, PartialEq)]
pub struct GitHubLabel {
    /// Store-assigned label id.
    pub id: u64,
    /// Label name; unique within one repository.
    pub name: String,
    /// Label color, six hexadecimal digits without `#`.
    pub color: String,
    /// Label description, when the store reports one.
    pub description: Option<String>,
    /// Whether the store marks this as a default label.
    pub default: bool,
    /// API URL of the label.
    pub url: String,
}

impl View for GitHubLabel {
    type V = GitHubLabelV;

    open spec fn view(&self) -> GitHubLabelV {
        GitHubLabelV {
            id: self.id,
            name: self.name@,
            color: self.color@,
            description: self.description.deep_view(),
            default: self.default,
            url: self.url@,
        }
    }
}

impl DeepView for GitHubLabel {
    type V = GitHubLabelV;

    open spec fn deep_view(&self) -> GitHubLabelV {
        self.view()
    }
}

impl Clone for GitHubLabel {
    /// Cloning keeps every field; stated at the level of views because a
    /// cloned string is a fresh string.
    fn clone(&self) -> (r: Self)
        ensures
            r@ == self@,
            r.name == self.name,
    {
        let r = GitHubLabel {
            id: self.id,
            name: self.name.clone(),
            color: self.color.clone(),
            description: self.description.clone(),
            default: self.default,
            url: self.url.clone(),
        };
        proof {
            assert(r.description == self.description);
        }
        r
    }
}

impl vstd::std_specs::convert::FromSpecImpl<GitHubLabel> for LabelConfig {
    open spec fn obeys_from_spec() -> bool {
        false
    }

    open spec fn from_spec(v: GitHubLabel) -> LabelConfig {
        arbitrary()
    }
}

impl From<GitHubLabel> for LabelConfig {
    /// An observed label as a desired one: name, color and description are
    /// kept; the result has no aliases and is not marked for deletion.
    fn from(github_label: GitHubLabel) -> (r: LabelConfig)
        ensures
            r.name == github_label.name,
            r.color == github_label.color,
            r.description == github_label.description,
            r.aliases@ == Seq::<String>::empty(),
            r.delete == false,
    {
        let r = LabelConfig {
            name: github_label.name,
            color: github_label.color,
            description: github_label.description,
            aliases: Vec::new(),
            delete: false,
        };
        proof {
            assert(r.aliases@ =~= Seq::<String>::empty());
        }
        r
    }
}

/// An RFC 3986 unreserved character: a letter, a digit, or one of
/// `-` `.` `_` `~`.  These stay as they are in a path segment.
pub open spec fn is_unreserved(c: char) -> bool {
    let v = c as u32;
    (('A' as u32) <= v && v <= ('Z' as u32)) || (('a' as u32) <= v && v <= ('z' as u32)) || ((
    '0' as u32) <= v && v <= ('9' as u32)) || c == '-' || c == '.' || c == '_' || c == '~'
}

/// The uppercase hexadecimal digit for a value below sixteen.
pub open spec fn hex_digit_upper(v: u32) -> char
    recommends
        v < 16,
{
    if v < 10 {
        ((('0' as u32) + v) as u8) as char
    } else {
        ((('A' as u32) + v - 10) as u8) as char
    }
}

/// The three characters that percent-encode one byte: `%` and two uppercase
/// hexadecimal digits.
pub open spec fn percent_byte(b: u8) -> Seq<char> {
    seq!['%', hex_digit_upper((b >> 4) as u32), hex_digit_upper((b & 0x0f) as u32)]
}

/// Percent-encode a byte sequence, in order.
pub open spec fn percent_bytes(bs: Seq<u8>) -> Seq<char>
    decreases bs.len(),
{
    if bs.len() == 0 {
        Seq::empty()
    } else {
        percent_bytes(bs.drop_last()) + percent_byte(bs.last())
    }
}

proof fn lemma_percent_bytes_one(b0: u8)
    ensures
        percent_bytes(seq![b0]) == percent_byte(b0),
{
    assert(seq![b0].drop_last() =~= Seq::<u8>::empty());
    assert(percent_bytes(Seq::<u8>::empty()) == Seq::<char>::empty());
    assert(percent_bytes(seq![b0]) =~= percent_byte(b0));
}

proof fn lemma_percent_bytes_two(b0: u8, b1: u8)
    ensures
        percent_bytes(seq![b0, b1]) == percent_byte(b0) + percent_byte(b1),
{
    lemma_percent_bytes_one(b0);
    assert(seq![b0, b1].drop_last() =~= seq![b0]);
    assert(percent_bytes(seq![b0, b1]) =~= percent_byte(b0) + percent_byte(b1));
}

proof fn lemma_percent_bytes_three(b0: u8, b1: u8, b2: u8)
    ensures
        percent_bytes(seq![b0, b1, b2]) == percent_byte(b0) + percent_byte(b1) + percent_byte(b2),
{
    lemma_percent_bytes_two(b0, b1);
    assert(seq![b0, b1, b2].drop_last() =~= seq![b0, b1]);
    assert(percent_bytes(seq![b0, b1, b2]) =~= percent_byte(b0) + percent_byte(b1) + percent_byte(
        b2,
    ));
}

proof fn lemma_percent_bytes_four(b0: u8, b1: u8, b2: u8, b3: u8)
    ensures
        percent_bytes(seq![b0, b1, b2, b3]) == percent_byte(b0) + percent_byte(b1) + percent_byte(
            b2,
        ) + percent_byte(b3),
{
    lemma_percent_bytes_three(b0, b1, b2);
    assert(seq![b0, b1, b2, b3].drop_last() =~= seq![b0, b1, b2]);
    assert(percent_bytes(seq![b0, b1, b2, b3]) =~= percent_byte(b0) + percent_byte(b1)
        + percent_byte(b2) + percent_byte(b3));
}

/// How one character appears in an encoded path segment: unreserved
/// characters stand for themselves, every other character becomes the
/// percent-encoded bytes of its UTF-8 encoding.
pub open spec fn encode_char(c: char) -> Seq<char> {
    if is_unreserved(c) {
        seq![c]
    } else {
        percent_bytes(encode_scalar(c as u32))
    }
}

/// The full encoding of a path segment: each character's encoding, in
/// order.
pub open spec fn spec_encode_path_segment(s: Seq<char>) -> Seq<char>
    decreases s.len(),
{
    if s.len() == 0 {
        Seq::empty()
    } else {
        spec_encode_path_segment(s.drop_last()) + encode_char(s.last())
    }
}

/// Append the percent-encoding of one byte: `%` and two uppercase
/// hexadecimal digits.
fn push_percent(out: &mut Vec<char>, b: u8)
    ensures
        final(out)@ == old(out)@ + percent_byte(b),
{
    proof {
        assert(b >> 4 < 16) by (bit_vector);
        assert(b & 0x0f < 16) by (bit_vector);
    }
    out.push('%');
    let hi: u8 = b >> 4;
    let lo: u8 = b & 0x0f;
    let hc: char = if hi < 10 {
        (48 + hi) as char
    } else {
        (55 + hi) as char
    };
    let lc: char = if lo < 10 {
        (48 + lo) as char
    } else {
        (55 + lo) as char
    };
    out.push(hc);
    out.push(lc);
    proof {
        assert(hc == hex_digit_upper((b >> 4) as u32));
        assert(lc == hex_digit_upper((b & 0x0f) as u32));
        assert(out@ =~= old(out)@ + percent_byte(b));
    }
}

/// Encode a string for use as one URL path segment: RFC 3986 unreserved
/// characters stay, every other character is written as the
/// percent-encoded bytes of its UTF-8 encoding.
pub fn encode_path_segment(input: &str) -> (r: String)
    ensures
        r@ == spec_encode_path_segment(input@),
{
    let n = input.unicode_len();
    let mut out: Vec<char> = Vec::new();
    let mut i: usize = 0;
    while i < n
        invariant
            i <= n,
            n == input@.len(),
            out@ == spec_encode_path_segment(input@.take(i as int)),
        decreases n - i,
    {
        let ghost prefix = out@;
        let c = input.get_char(i);
        let v = c as u32;
        let unreserved = (65 <= v && v <= 90) || (97 <= v && v <= 122) || (48 <= v && v <= 57) || c
            == '-' || c == '.' || c == '_' || c == '~';
        if unreserved {
            out.push(c);
            proof {
                assert(out@ =~= prefix + encode_char(c));
            }
        } else {
            proof {
                char_is_scalar(c);
            }
            if v < 0x80 {
                push_percent(&mut out, (v & 0x7f) as u8);
                proof {
                    lemma_percent_bytes_one((v & 0x7f) as u8);
                    assert(encode_scalar(v) =~= seq![(v & 0x7f) as u8]);
                    assert(out@ =~= prefix + encode_char(c));
                }
            } else if v < 0x800 {
                let b0: u8 = 0xC0u8 | (((v >> 6) & 0x1F) as u8);
                let b1: u8 = 0x80u8 | ((v & 0x3F) as u8);
                push_percent(&mut out, b0);
                push_percent(&mut out, b1);
                proof {
                    lemma_percent_bytes_two(b0, b1);
                    assert(encode_scalar(v) =~= seq![b0, b1]);
                    assert(out@ =~= prefix + encode_char(c));
                }
            } else if v < 0x10000 {
                let b0: u8 = 0xE0u8 | (((v >> 12) & 0x0F) as u8);
                let b1: u8 = 0x80u8 | (((v >> 6) & 0x3F) as u8);
                let b2: u8 = 0x80u8 | ((v & 0x3F) as u8);
                push_percent(&mut out, b0);
                push_percent(&mut out, b1);
                push_percent(&mut out, b2);
                proof {
                    lemma_percent_bytes_three(b0, b1, b2);
                    assert(encode_scalar(v) =~= seq![b0, b1, b2]);
                    assert(out@ =~= prefix + encode_char(c));
                }
            } else {
                let b0: u8 = 0xF0u8 | (((v >> 18) & 0x07) as u8);
                let b1: u8 = 0x80u8 | (((v >> 12) & 0x3F) as u8);
                let b2: u8 = 0x80u8 | (((v >> 6) & 0x3F) as u8);
                let b3: u8 = 0x80u8 | ((v & 0x3F) as u8);
                push_percent(&mut out, b0);
                push_percent(&mut out, b1);
                push_percent(&mut out, b2);
                push_percent(&mut out, b3);
                proof {
                    lemma_percent_bytes_four(b0, b1, b2, b3);
                    assert(encode_scalar(v) =~= seq![b0, b1, b2, b3]);
                    assert(out@ =~= prefix + encode_char(c));
                }
            }
        }
        proof {
            assert(input@.take(i + 1).drop_last() =~= input@.take(i as int));
            assert(input@.take(i + 1).last() == input@[i as int]);
        }
        i = i + 1;
    }
    proof {
        assert(input@.take(n as int) =~= input@);
    }
    crate::config::string_from_chars(&out)
}

} // verus!
