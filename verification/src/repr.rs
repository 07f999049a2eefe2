//! Short textual forms of sources, channels and URLs for summaries.

use vstd::prelude::*;
use vstd::string::StringSliceAdditionalSpecFns;

use crate::audio::{AudioChannel, AudioEncoding, AudioSource};
use crate::chars::{append_chars, append_str, ascii_lowercase, chars_eq_str, chars_of, copy_range, decimal_chars, decimal_digits, string_from_chars, to_ascii_lowercase};

verus! {

/// `value` cut to at most `max_chars` characters, an ellipsis marking a
/// cut.
pub open spec fn truncated(value: Seq<char>, max_chars: nat) -> Seq<char> {
    if value.len() <= max_chars {
        value
    } else {
        value.take(if max_chars >= 1 { max_chars - 1 } else { 0 }) + seq!['…']
    }
}

/// Cuts `value` to at most `max_chars` characters, ending a cut text with
/// `…`.
pub fn truncate(value: &str, max_chars: usize) -> (out: String)
    ensures
        out@ == truncated(value@, max_chars as nat),
{
    let chars = chars_of(value);
    if chars.len() <= max_chars {
        return value.to_owned();
    }
    let keep = if max_chars >= 1 { max_chars - 1 } else { 0 };
    let mut out = copy_range(chars.as_slice(), 0, keep);
    out.push('…');
    assert(chars@.subrange(0, keep as int) =~= chars@.take(keep as int));
    string_from_chars(out.as_slice())
}

/// The position of the first `?` or `#`, if any.
pub open spec fn query_start(s: Seq<char>) -> Option<int> {
    if exists|i: int| 0 <= i < s.len() && (s[i] == '?' || s[i] == '#') {
        Some(choose|i: int| 0 <= i < s.len() && (s[i] == '?' || s[i] == '#') && forall|j: int| 0 <= j < i ==> s[j] != '?' && s[j] != '#')
    } else {
        None
    }
}

/// A URL shortened for display: the query or fragment is hidden behind
/// `?…`, and a long remainder keeps its start and its end around `…`.
pub open spec fn summarized_url(value: Seq<char>, max_chars: nat) -> Seq<char> {
    let (base, suffix) = match query_start(value) {
        Some(i) => (value.take(i), seq!['?', '…']),
        None => (value, Seq::<char>::empty()),
    };
    let budget: nat = if max_chars >= suffix.len() { (max_chars - suffix.len()) as nat } else { 0 };
    if base.len() <= budget {
        base + suffix
    } else if budget <= 1 {
        truncated(base, budget)
    } else {
        let right: nat = if budget / 2 >= 1 { budget / 2 } else { 1 };
        let left: nat = if budget >= right + 1 { (budget - right - 1) as nat } else { 0 };
        base.take(left as int) + seq!['…'] + base.subrange(base.len() - right, base.len() as int) + suffix
    }
}

/// Shortens a URL for display without its query values.
pub fn summarize_url(value: &str, max_chars: usize) -> (out: String)
    ensures
        out@ == summarized_url(value@, max_chars as nat),
{
    let chars = chars_of(value);
    let mut cut: usize = chars.len();
    let mut found = false;
    let mut i: usize = 0;
    while i < chars.len() && !found
        invariant
            i <= chars@.len(),
            chars@ == value@,
            cut <= chars@.len(),
            found ==> cut < chars@.len() && (chars@[cut as int] == '?' || chars@[cut as int] == '#') && forall|j: int|
                0 <= j < cut ==> chars@[j] != '?' && chars@[j] != '#',
            !found ==> cut == chars@.len() && forall|j: int| 0 <= j < i ==> chars@[j] != '?' && chars@[j] != '#',
        decreases chars@.len() - i,
    {
        if chars[i] == '?' || chars[i] == '#' {
            found = true;
            cut = i;
        }
        i = i + 1;
    }
    proof {
        if found {
            let w = choose|k: int|
                0 <= k < value@.len() && (value@[k] == '?' || value@[k] == '#') && forall|j: int|
                    0 <= j < k ==> value@[j] != '?' && value@[j] != '#';
            assert(0 <= w < value@.len() && (value@[w] == '?' || value@[w] == '#'));
            if w < cut {
                assert(chars@[w] != '?' && chars@[w] != '#');
            }
            if w > cut {
                assert(value@[cut as int] != '?' && value@[cut as int] != '#');
            }
            assert(query_start(value@) == Some(cut as int));
        } else {
            assert(query_start(value@) is None);
        }
    }
    let base = copy_range(chars.as_slice(), 0, cut);
    let suffix_len: usize = if found { 2 } else { 0 };
    let budget = max_chars.saturating_sub(suffix_len);
    let mut out: Vec<char> = Vec::new();
    if base.len() <= budget {
        append_chars(&mut out, base.as_slice());
        if found {
            out.push('?');
            out.push('…');
        }
        proof {
            if found {
                assert(chars@.subrange(0, cut as int) =~= value@.take(cut as int));
            } else {
                assert(base@ =~= value@);
            }
        }
        return string_from_chars(out.as_slice());
    }
    if budget <= 1 {
        let keep = if budget >= 1 { budget - 1 } else { 0 };
        let mut cut_base = copy_range(base.as_slice(), 0, keep);
        cut_base.push('…');
        proof {
            assert(base@.subrange(0, keep as int) =~= base@.take(keep as int));
            if found {
                assert(chars@.subrange(0, cut as int) =~= value@.take(cut as int));
            } else {
                assert(base@ =~= value@);
            }
        }
        return string_from_chars(cut_base.as_slice());
    }
    let right = if budget / 2 >= 1 { budget / 2 } else { 1 };
    let left = if budget >= right + 1 { budget - right - 1 } else { 0 };
    let head = copy_range(base.as_slice(), 0, left);
    let tail = copy_range(base.as_slice(), base.len() - right, base.len());
    append_chars(&mut out, head.as_slice());
    out.push('…');
    append_chars(&mut out, tail.as_slice());
    if found {
        out.push('?');
        out.push('…');
    }
    proof {
        assert(base@.subrange(0, left as int) =~= base@.take(left as int));
        if found {
            assert(chars@.subrange(0, cut as int) =~= value@.take(cut as int));
        } else {
            assert(base@ =~= value@);
        }
    }
    string_from_chars(out.as_slice())
}

/// The lower-case name of an encoding.
pub open spec fn encoding_label(encoding: AudioEncoding) -> Seq<char> {
    match encoding {
        AudioEncoding::Wav => "wav"@,
        AudioEncoding::Flac => "flac"@,
        AudioEncoding::Mp3 => "mp3"@,
        AudioEncoding::Ogg => "ogg"@,
        AudioEncoding::PcmS16Le => "pcm_s16le"@,
        AudioEncoding::Other(value) => value@,
        AudioEncoding::Unknown => "unknown"@,
    }
}

/// The lower-case name of an encoding.
pub fn encoding_label_of(encoding: &AudioEncoding) -> (name: String)
    ensures
        name@ == encoding_label(*encoding),
{
    match encoding {
        AudioEncoding::Wav => "wav".to_owned(),
        AudioEncoding::Flac => "flac".to_owned(),
        AudioEncoding::Mp3 => "mp3".to_owned(),
        AudioEncoding::Ogg => "ogg".to_owned(),
        AudioEncoding::PcmS16Le => "pcm_s16le".to_owned(),
        AudioEncoding::Other(value) => value.clone(),
        AudioEncoding::Unknown => "unknown".to_owned(),
    }
}

/// The channel named `mono`, `left` or `right`, in any letter case.
pub open spec fn named_channel(name: Seq<char>) -> Option<AudioChannel> {
    let lower = ascii_lowercase(name);
    if lower == "mono"@ {
        Some(AudioChannel::Mono)
    } else if lower == "left"@ {
        Some(AudioChannel::Left)
    } else if lower == "right"@ {
        Some(AudioChannel::Right)
    } else {
        None
    }
}

/// Reads a channel name: `mono`, `left` or `right`, in any letter case.
pub fn channel_from_name(name: &str) -> (channel: Option<AudioChannel>)
    ensures
        channel == named_channel(name@),
{
    let lower = to_ascii_lowercase(name);
    if chars_eq_str(lower.as_slice(), "mono") {
        Some(AudioChannel::Mono)
    } else if chars_eq_str(lower.as_slice(), "left") {
        Some(AudioChannel::Left)
    } else if chars_eq_str(lower.as_slice(), "right") {
        Some(AudioChannel::Right)
    } else {
        None
    }
}

/// Why a channel index was refused.
#[derive(Debug, Clone, Copy, PartialEq, Eq, Structural)]
pub enum ChannelIndexError {
    Negative,
    TooLarge,
}

/// The channel of a signed index: 0 is `Left`, 1 is `Right`.
pub fn channel_from_signed_index(index: i64) -> (result: Result<AudioChannel, ChannelIndexError>)
    ensures
        index < 0 ==> result == Err::<AudioChannel, ChannelIndexError>(ChannelIndexError::Negative),
        index > u16::MAX ==> result == Err::<AudioChannel, ChannelIndexError>(ChannelIndexError::TooLarge),
        0 <= index <= u16::MAX ==> result == Ok::<AudioChannel, ChannelIndexError>(
            AudioChannel::spec_from_index(index as u16),
        ),
{
    if index < 0 {
        Err(ChannelIndexError::Negative)
    } else if index > u16::MAX as i64 {
        Err(ChannelIndexError::TooLarge)
    } else {
        Ok(AudioChannel::from_index(index as u16))
    }
}

/// How Rust's `Debug` writes a string: quoted, with escapes.
pub uninterp spec fn debug_text(s: Seq<char>) -> Seq<char>;

/// The `Debug` form of `s`.
///
/// Trusted: formats `s` with `{:?}`, whose result depends on `s` alone;
/// the exact escaping is named, not stated.
#[verifier::external_body]
fn debug_quoted(s: &str) -> (out: String)
    ensures
        out@ == debug_text(s@),
{
    format!("{s:?}")
}

/// A one-line description of where a document's audio comes from.
pub open spec fn source_field(source: AudioSource) -> Seq<char> {
    match source {
        AudioSource::Path(path) => "file="@ + debug_text(truncated(path@, 72)),
        AudioSource::Url(url) => "url="@ + debug_text(summarized_url(url@, 72)),
        AudioSource::Base64(data) => "base64_chars="@ + decimal_digits((vstd::utf8::encode_utf8(data@).len() as usize) as nat),
        AudioSource::EncodedBytes(bytes) => "bytes="@ + decimal_digits(bytes@.len()),
        AudioSource::PcmS16Le { bytes, sample_rate, channels } => "pcm_bytes="@ + decimal_digits(bytes@.len())
            + ", sample_rate="@ + decimal_digits(sample_rate as nat) + ", channels="@ + decimal_digits(channels as nat),
    }
}

/// Describes where a document's audio comes from.
pub fn format_source_field(source: &AudioSource) -> (out: String)
    ensures
        out@ == source_field(*source),
{
    let mut v: Vec<char> = Vec::new();
    match source {
        AudioSource::Path(path) => {
            append_str(&mut v, "file=");
            let q = debug_quoted(truncate(path.as_str(), 72).as_str());
            append_str(&mut v, q.as_str());
        },
        AudioSource::Url(url) => {
            append_str(&mut v, "url=");
            let q = debug_quoted(summarize_url(url.as_str(), 72).as_str());
            append_str(&mut v, q.as_str());
        },
        AudioSource::Base64(data) => {
            append_str(&mut v, "base64_chars=");
            let n = data.as_str().len();
            let digits = decimal_chars(n as u64);
            append_chars(&mut v, digits.as_slice());
        },
        AudioSource::EncodedBytes(bytes) => {
            append_str(&mut v, "bytes=");
            let digits = decimal_chars(bytes.len() as u64);
            append_chars(&mut v, digits.as_slice());
        },
        AudioSource::PcmS16Le { bytes, sample_rate, channels } => {
            append_str(&mut v, "pcm_bytes=");
            let digits = decimal_chars(bytes.len() as u64);
            append_chars(&mut v, digits.as_slice());
            append_str(&mut v, ", sample_rate=");
            let rate = decimal_chars(*sample_rate as u64);
            append_chars(&mut v, rate.as_slice());
            append_str(&mut v, ", channels=");
            let count = decimal_chars(*channels as u64);
            append_chars(&mut v, count.as_slice());
        },
    }
    string_from_chars(v.as_slice())
}

} // verus!
