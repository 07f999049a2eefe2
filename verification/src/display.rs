//! Pieces of the terminal summaries of audios, waveforms and timelines:
//! labels, number grouping, width-aware truncation, time axes and
//! annotation tracks.

use vstd::prelude::*;
use vstd::string::StringSliceAdditionalSpecFns;

use crate::audio::{AudioChannel, AudioEncoding, AudioSource};
use crate::chars::{append_chars, append_str, chars_of, copy_range, decimal_chars, decimal_digits, string_from_chars};
use crate::doc::Audio;
use crate::timeline::{Annotation, TimeSpan, Timeline};

verus! {

/// The columns a character takes in a terminal; `None` for control
/// characters.
pub uninterp spec fn char_columns(c: char) -> Option<nat>;

/// The columns a text takes in a terminal.
pub uninterp spec fn text_columns(s: Seq<char>) -> nat;

/// Trusted: calls `unicode_width::UnicodeWidthChar::width`, whose result
/// depends on the character alone.
#[verifier::external_body]
fn char_width(c: char) -> (w: Option<usize>)
    ensures
        match w {
            Some(n) => char_columns(c) == Some(n as nat),
            None => char_columns(c) is None,
        },
{
    unicode_width::UnicodeWidthChar::width(c)
}

/// Trusted: calls `unicode_width::UnicodeWidthStr::width`, whose result
/// depends on the text alone.
#[verifier::external_body]
fn display_width(s: &str) -> (w: usize)
    ensures
        w == text_columns(s@),
{
    unicode_width::UnicodeWidthStr::width(s)
}

/// The upper-case form of a text, as `str::to_uppercase` gives it.
pub uninterp spec fn uppercase(s: Seq<char>) -> Seq<char>;

/// Trusted: calls `str::to_uppercase`, whose result depends on the text
/// alone.
#[verifier::external_body]
fn to_uppercase(s: &str) -> (u: String)
    ensures
        u@ == uppercase(s@),
{
    s.to_uppercase()
}

/// The host of a URL as the `url` crate parses it: `None` when the text
/// does not parse, `Some(None)` when it has no host.
pub uninterp spec fn url_host(url: Seq<char>) -> Option<Option<Seq<char>>>;

/// Trusted: calls `url::Url::parse` and then `host_str`; the result
/// depends on the text alone.
#[verifier::external_body]
fn parse_url_host(url: &str) -> (host: Option<Option<String>>)
    ensures
        match host {
            Some(Some(h)) => url_host(url@) == Some(Some(h@)),
            Some(None) => url_host(url@) == Some(None::<Seq<char>>),
            None => url_host(url@) is None,
        },
{
    match url::Url::parse(url) {
        Ok(parsed) => Some(parsed.host_str().map(|h| h.to_owned())),
        Err(_) => None,
    }
}

/// The decimal digits of `value` with a comma before each group of three
/// from the right.
pub open spec fn grouped(digits: Seq<char>) -> Seq<char>
    decreases digits.len(),
{
    if digits.len() <= 3 {
        digits
    } else {
        grouped(digits.take(digits.len() - 3)) + seq![','] + digits.skip(digits.len() - 3)
    }
}

/// `value` in decimal with thousands separated by commas.
pub fn grouped_number(value: u64) -> (out: String)
    ensures
        out@ == grouped(decimal_digits(value as nat)),
{
    let digits = decimal_chars(value);
    let n = digits.len();
    let mut out: Vec<char> = Vec::new();
    let mut i: usize = 0;
    while i < n
        invariant
            n == digits@.len(),
            i <= n,
            out@ == grouped_prefix(digits@, i as int),
        decreases n - i,
    {
        if i > 0 && (n - i) % 3 == 0 {
            out.push(',');
        }
        out.push(digits[i]);
        proof {
            lemma_grouped_prefix_step(digits@, i as int);
        }
        i = i + 1;
    }
    proof {
        lemma_grouped_prefix_whole(digits@);
    }
    string_from_chars(out.as_slice())
}

/// The first `i` digits with a comma before each digit whose distance from
/// the end is a multiple of three (the first digit excepted).
pub open spec fn grouped_prefix(digits: Seq<char>, i: int) -> Seq<char>
    decreases i,
{
    if i <= 0 {
        Seq::empty()
    } else {
        grouped_prefix(digits, i - 1) + (if i - 1 > 0 && (digits.len() - (i - 1)) % 3 == 0 {
            seq![',']
        } else {
            Seq::empty()
        }) + seq![digits[i - 1]]
    }
}

proof fn lemma_grouped_prefix_step(digits: Seq<char>, i: int)
    requires
        0 <= i < digits.len(),
    ensures
        grouped_prefix(digits, i + 1) == grouped_prefix(digits, i) + (if i > 0 && (digits.len() - i) % 3 == 0 {
            seq![',']
        } else {
            Seq::empty()
        }) + seq![digits[i]],
{
}

/// Grouping digits left to right agrees with grouping from the right.
proof fn lemma_grouped_prefix_whole(digits: Seq<char>)
    ensures
        grouped_prefix(digits, digits.len() as int) == grouped(digits),
    decreases digits.len(),
{
    if digits.len() > 3 {
        let head = digits.take(digits.len() - 3);
        lemma_grouped_prefix_whole(head);
        lemma_grouped_prefix_shift(digits, digits.len() - 3);
        let n = digits.len() as int;
        assert(grouped_prefix(digits, n) == grouped_prefix(digits, n - 3) + seq![','] + digits.skip(n - 3)) by {
            assert(grouped_prefix(digits, n - 2) == grouped_prefix(digits, n - 3) + seq![','] + seq![digits[n - 3]]);
            assert(grouped_prefix(digits, n - 1) == grouped_prefix(digits, n - 2) + seq![digits[n - 2]]);
            assert(grouped_prefix(digits, n) == grouped_prefix(digits, n - 1) + seq![digits[n - 1]]);
            assert(digits.skip(n - 3) =~= seq![digits[n - 3], digits[n - 2], digits[n - 1]]);
        }
    } else {
        lemma_grouped_prefix_short(digits, digits.len() as int);
    }
}

proof fn lemma_grouped_prefix_short(digits: Seq<char>, i: int)
    requires
        digits.len() <= 3,
        0 <= i <= digits.len(),
    ensures
        grouped_prefix(digits, i) == digits.take(i),
    decreases i,
{
    if i > 0 {
        lemma_grouped_prefix_short(digits, i - 1);
        assert(digits.take(i) =~= digits.take(i - 1) + seq![digits[i - 1]]);
    }
}

/// The commas placed among the first `i` digits do not depend on the digits
/// after them, once the count to the end is shifted by a multiple of three.
proof fn lemma_grouped_prefix_shift(digits: Seq<char>, k: int)
    requires
        0 <= k <= digits.len(),
        (digits.len() - k) % 3 == 0,
    ensures
        forall|i: int| 0 <= i <= k ==> #[trigger] grouped_prefix(digits, i) == grouped_prefix(digits.take(k), i),
{
    assert forall|i: int| 0 <= i <= k implies #[trigger] grouped_prefix(digits, i) == grouped_prefix(digits.take(k), i) by {
        lemma_grouped_prefix_shift_at(digits, k, i);
    }
}

proof fn lemma_grouped_prefix_shift_at(digits: Seq<char>, k: int, i: int)
    requires
        0 <= k <= digits.len(),
        (digits.len() - k) % 3 == 0,
        0 <= i <= k,
    ensures
        grouped_prefix(digits, i) == grouped_prefix(digits.take(k), i),
    decreases i,
{
    if i > 0 {
        lemma_grouped_prefix_shift_at(digits, k, i - 1);
        let t = digits.take(k);
        assert(t[i - 1] == digits[i - 1]);
        assert(((digits.len() - (i - 1)) % 3 == 0) == ((t.len() - (i - 1)) % 3 == 0));
    }
}

/// Wraps `value` in an ANSI style when colour is on.
pub open spec fn painted(style: Seq<char>, value: Seq<char>, color: bool) -> Seq<char> {
    if color {
        style + value + seq!['\x1b', '[', '0', 'm']
    } else {
        value
    }
}

/// Wraps `value` in an ANSI style when colour is on.
pub fn paint(style: &str, value: &str, color: bool) -> (out: String)
    ensures
        out@ == painted(style@, value@, color),
{
    if color {
        let mut v = chars_of(style);
        append_str(&mut v, value);
        v.push('\x1b');
        v.push('[');
        v.push('0');
        v.push('m');
        string_from_chars(v.as_slice())
    } else {
        value.to_owned()
    }
}

/// `target` with the characters of `value` written from `start` on, as far
/// as `target` reaches.
pub open spec fn overlaid(target: Seq<char>, start: int, value: Seq<char>) -> Seq<char> {
    Seq::new(
        target.len(),
        |i: int| if start <= i < start + value.len() { value[i - start] } else { target[i] },
    )
}

/// Writes `value` over `target` from `start`, dropping what does not fit.
pub fn overlay(target: &mut Vec<char>, start: usize, value: &str)
    ensures
        final(target)@ == overlaid(old(target)@, start as int, value@),
{
    let chars = chars_of(value);
    let ghost orig = target@;
    let mut i: usize = 0;
    while i < chars.len()
        invariant
            i <= chars@.len(),
            chars@ == value@,
            target@.len() == orig.len(),
            forall|k: int|
                0 <= k < target@.len() ==> #[trigger] target@[k] == if start <= k < start + i {
                    chars@[k - start]
                } else {
                    orig[k]
                },
        decreases chars@.len() - i,
    {
        let ghost before = target@;
        if start < target.len() && i < target.len() - start {
            target.set(start + i, chars[i]);
        }
        proof {
            assert forall|k: int| 0 <= k < target@.len() implies #[trigger] target@[k] == if start <= k < start + i + 1 {
                chars@[k - start]
            } else {
                orig[k]
            } by {
                if k != start + i {
                    assert(target@[k] == before[k]);
                }
            }
        }
        i = i + 1;
    }
    assert(target@ =~= overlaid(orig, start as int, value@));
}

/// The label of a channel in a summary.
pub open spec fn channel_label_text(channel: AudioChannel) -> Seq<char> {
    match channel {
        AudioChannel::Mono => "Mono"@,
        AudioChannel::Left => "Left"@,
        AudioChannel::Right => "Right"@,
        AudioChannel::Channel(index) => "Channel "@ + decimal_digits(index as nat),
    }
}

/// The label of a channel in a summary.
pub fn channel_label(channel: AudioChannel) -> (out: String)
    ensures
        out@ == channel_label_text(channel),
{
    match channel {
        AudioChannel::Mono => "Mono".to_owned(),
        AudioChannel::Left => "Left".to_owned(),
        AudioChannel::Right => "Right".to_owned(),
        AudioChannel::Channel(index) => {
            let mut v = chars_of("Channel ");
            let digits = decimal_chars(index as u64);
            append_chars(&mut v, digits.as_slice());
            string_from_chars(v.as_slice())
        },
    }
}

/// The name of a channel count.
pub open spec fn channel_count_text(channels: u16) -> Seq<char> {
    if channels == 1 {
        "Mono"@
    } else if channels == 2 {
        "Stereo"@
    } else {
        decimal_digits(channels as nat) + " channels"@
    }
}

/// The name of a channel count: `Mono`, `Stereo`, or `N channels`.
pub fn channel_count_name(channels: u16) -> (out: String)
    ensures
        out@ == channel_count_text(channels),
{
    if channels == 1 {
        "Mono".to_owned()
    } else if channels == 2 {
        "Stereo".to_owned()
    } else {
        let mut v = decimal_chars(channels as u64);
        append_str(&mut v, " channels");
        string_from_chars(v.as_slice())
    }
}

/// The short name of an encoding in a summary.
pub open spec fn encoding_text(encoding: AudioEncoding) -> Seq<char> {
    match encoding {
        AudioEncoding::Wav => "WAV"@,
        AudioEncoding::Flac => "FLAC"@,
        AudioEncoding::Mp3 => "MP3"@,
        AudioEncoding::Ogg => "OGG"@,
        AudioEncoding::PcmS16Le => "PCM S16LE"@,
        AudioEncoding::Other(name) => uppercase(name@),
        AudioEncoding::Unknown => "Unknown"@,
    }
}

/// The short name of an encoding in a summary.
pub fn encoding_name(encoding: &AudioEncoding) -> (out: String)
    ensures
        out@ == encoding_text(*encoding),
{
    match encoding {
        AudioEncoding::Wav => "WAV".to_owned(),
        AudioEncoding::Flac => "FLAC".to_owned(),
        AudioEncoding::Mp3 => "MP3".to_owned(),
        AudioEncoding::Ogg => "OGG".to_owned(),
        AudioEncoding::PcmS16Le => "PCM S16LE".to_owned(),
        AudioEncoding::Other(name) => to_uppercase(name.as_str()),
        AudioEncoding::Unknown => "Unknown".to_owned(),
    }
}

/// The channels a waveform of `channels` channels is drawn as.
pub fn waveform_channels(channels: u16) -> (out: Vec<AudioChannel>)
    ensures
        channels <= 1 ==> out@ == seq![AudioChannel::Mono],
        channels > 1 ==> out@ == Seq::new(channels as nat, |i: int| AudioChannel::spec_from_index(i as u16)),
{
    let mut out: Vec<AudioChannel> = Vec::new();
    if channels <= 1 {
        out.push(AudioChannel::Mono);
        return out;
    }
    let mut i: u16 = 0;
    while i < channels
        invariant
            i <= channels,
            out@ == Seq::new(i as nat, |k: int| AudioChannel::spec_from_index(k as u16)),
        decreases channels - i,
    {
        out.push(AudioChannel::from_index(i));
        assert(out@ =~= Seq::new((i + 1) as nat, |k: int| AudioChannel::spec_from_index(k as u16)));
        i = i + 1;
    }
    out
}

/// The short name of an annotation's kind.
pub open spec fn annotation_type_text(annotation: Annotation) -> Seq<char> {
    match annotation {
        Annotation::Activity(_) => "Activity"@,
        Annotation::Token(_) => "Token"@,
        Annotation::Transcription(_) => "Transcription"@,
        Annotation::Sentence(_) => "Sentence"@,
        Annotation::Speaker(_) => "Speaker"@,
        Annotation::Language(_) => "Language"@,
    }
}

/// The short name of an annotation's kind.
pub fn annotation_type_name(annotation: &Annotation) -> (name: &'static str)
    ensures
        name@ == annotation_type_text(*annotation),
{
    match annotation {
        Annotation::Activity(_) => "Activity",
        Annotation::Token(_) => "Token",
        Annotation::Transcription(_) => "Transcription",
        Annotation::Sentence(_) => "Sentence",
        Annotation::Speaker(_) => "Speaker",
        Annotation::Language(_) => "Language",
    }
}

/// Where width-aware truncation stops: the first position from `k` at
/// which the text so far, the next character and an ellipsis would exceed
/// `width` columns.
pub open spec fn cut_point(value: Seq<char>, width: nat, k: int) -> int
    decreases value.len() - k,
{
    if k < 0 || k >= value.len() {
        value.len() as int
    } else if text_columns(value.take(k)) + (match char_columns(value[k]) {
        Some(w) => w,
        None => 0,
    }) + 1 > width {
        k
    } else {
        cut_point(value, width, k + 1)
    }
}

/// `value` cut to fit `width` terminal columns, an ellipsis marking a cut.
pub open spec fn fitted(value: Seq<char>, width: nat) -> Seq<char> {
    if text_columns(value) <= width {
        value
    } else if width == 0 {
        Seq::empty()
    } else if width == 1 {
        seq!['…']
    } else {
        value.take(cut_point(value, width, 0)) + seq!['…']
    }
}

/// Cuts `value` to fit `width` terminal columns.
pub fn truncate_columns(value: &str, width: usize) -> (out: String)
    ensures
        out@ == fitted(value@, width as nat),
{
    if display_width(value) <= width {
        return value.to_owned();
    }
    if width == 0 {
        return String::new();
    }
    if width == 1 {
        proof {
            reveal_strlit("…");
        }
        return "…".to_owned();
    }
    let chars = chars_of(value);
    let mut k: usize = 0;
    let mut stop = false;
    while k < chars.len() && !stop
        invariant
            k <= chars@.len(),
            chars@ == value@,
            width >= 2,
            stop ==> k < chars@.len() && cut_point(value@, width as nat, 0) == k,
            !stop ==> cut_point(value@, width as nat, 0) == cut_point(value@, width as nat, k as int),
        decreases chars@.len() - k + if stop { 0int } else { 1int },
    {
        let prefix = copy_range(chars.as_slice(), 0, k);
        let so_far = display_width(string_from_chars(prefix.as_slice()).as_str());
        let w = match char_width(chars[k]) {
            Some(w) => w,
            None => 0,
        };
        proof {
            assert(prefix@ =~= value@.take(k as int));
        }
        if so_far as u128 + w as u128 + 1 > width as u128 {
            stop = true;
        } else {
            k = k + 1;
        }
    }
    let mut out = copy_range(chars.as_slice(), 0, k);
    out.push('…');
    proof {
        if !stop {
            assert(cut_point(value@, width as nat, k as int) == value@.len());
        }
        assert(chars@.subrange(0, k as int) =~= value@.take(k as int));
    }
    string_from_chars(out.as_slice())
}

/// `n` copies of `c`.
pub open spec fn repeated(c: char, n: nat) -> Seq<char> {
    Seq::new(n, |i: int| c)
}

fn push_repeated(v: &mut Vec<char>, c: char, n: usize)
    ensures
        final(v)@ == old(v)@ + repeated(c, n as nat),
{
    let ghost head = v@;
    let mut i: usize = 0;
    while i < n
        invariant
            i <= n,
            head == old(v)@,
            v@ == head + repeated(c, i as nat),
        decreases n - i,
    {
        v.push(c);
        assert(v@ =~= head + repeated(c, (i + 1) as nat));
        i = i + 1;
    }
}

/// A rule of `─` with ` label ` in its middle, `width` characters long;
/// a label too long for it is cut to fit.
pub open spec fn centered_rule_text(label: Seq<char>, width: nat) -> Seq<char> {
    let padded = seq![' '] + label + seq![' '];
    if padded.len() >= width {
        fitted(padded, width)
    } else {
        let remaining = (width - padded.len()) as nat;
        let left = remaining / 2;
        repeated('─', left) + padded + repeated('─', (remaining - left) as nat)
    }
}

/// A rule of `─` with ` label ` in its middle.
pub fn centered_rule(label: &str, width: usize) -> (out: String)
    ensures
        out@ == centered_rule_text(label@, width as nat),
{
    let mut padded: Vec<char> = Vec::new();
    padded.push(' ');
    append_str(&mut padded, label);
    padded.push(' ');
    assert(padded@ =~= seq![' '] + label@ + seq![' ']);
    let padded_text = string_from_chars(padded.as_slice());
    if padded.len() >= width {
        return truncate_columns(padded_text.as_str(), width);
    }
    let remaining = width - padded.len();
    let left = remaining / 2;
    let mut out: Vec<char> = Vec::new();
    push_repeated(&mut out, '─', left);
    append_chars(&mut out, padded.as_slice());
    push_repeated(&mut out, '─', remaining - left);
    string_from_chars(out.as_slice())
}

/// The top edge of a card, `width` columns wide, with ` title ` centred.
pub open spec fn centered_title_text(width: nat, title: Seq<char>) -> Seq<char> {
    let inner: nat = if width >= 2 { (width - 2) as nat } else { 0 };
    let fitted_title = fitted(title, if inner >= 2 { (inner - 2) as nat } else { 0 });
    let padded = seq![' '] + fitted_title + seq![' '];
    let leftover: nat = if inner >= text_columns(padded) { (inner - text_columns(padded)) as nat } else { 0 };
    let left = leftover / 2;
    seq!['╭'] + repeated('─', left) + padded + repeated('─', (leftover - left) as nat) + seq!['╮']
}

/// The top edge of a card with its title centred.
pub fn centered_title(width: usize, title: &str) -> (out: String)
    ensures
        out@ == centered_title_text(width as nat, title@),
{
    let inner = width.saturating_sub(2);
    let fitted_title = truncate_columns(title, inner.saturating_sub(2));
    let mut padded: Vec<char> = Vec::new();
    padded.push(' ');
    append_str(&mut padded, fitted_title.as_str());
    padded.push(' ');
    assert(padded@ =~= seq![' '] + fitted_title@ + seq![' ']);
    let padded_text = string_from_chars(padded.as_slice());
    let leftover = inner.saturating_sub(display_width(padded_text.as_str()));
    let left = leftover / 2;
    let mut out: Vec<char> = Vec::new();
    out.push('╭');
    push_repeated(&mut out, '─', left);
    append_chars(&mut out, padded.as_slice());
    push_repeated(&mut out, '─', leftover - left);
    out.push('╮');
    assert(out@ =~= seq!['╭'] + repeated('─', left as nat) + padded@ + repeated('─', (leftover - left) as nat) + seq!['╮']);
    string_from_chars(out.as_slice())
}

/// `n` written with at least two digits, padded with a leading zero.
pub open spec fn two_digits(n: nat) -> Seq<char> {
    if n < 10 {
        seq!['0'] + decimal_digits(n)
    } else {
        decimal_digits(n)
    }
}

/// `ms` milliseconds as a clock reading of whole seconds: `mm:ss` below an
/// hour, `hh:mm:ss` from an hour on.
pub open spec fn time_text(ms: nat) -> Seq<char> {
    let seconds = ms / 1000;
    let hours = seconds / 3600;
    let minutes = (seconds % 3600) / 60;
    let secs = seconds % 60;
    if hours > 0 {
        two_digits(hours) + seq![':'] + two_digits(minutes) + seq![':'] + two_digits(secs)
    } else {
        two_digits(minutes) + seq![':'] + two_digits(secs)
    }
}

/// Appends `n` with at least two digits.
fn push_two_digits(v: &mut Vec<char>, n: u64)
    ensures
        final(v)@ == old(v)@ + two_digits(n as nat),
{
    if n < 10 {
        v.push('0');
    }
    let digits = decimal_chars(n);
    append_chars(v, digits.as_slice());
}

/// Formats milliseconds as `mm:ss` or `hh:mm:ss`.
pub fn format_time(time_ms: u64) -> (out: String)
    ensures
        out@ == time_text(time_ms as nat),
{
    let seconds = time_ms / 1000;
    let hours = seconds / 3600;
    let minutes = (seconds % 3600) / 60;
    let secs = seconds % 60;
    let mut v: Vec<char> = Vec::new();
    if hours > 0 {
        push_two_digits(&mut v, hours);
        v.push(':');
    }
    push_two_digits(&mut v, minutes);
    v.push(':');
    push_two_digits(&mut v, secs);
    proof {
        assert(v@ =~= time_text(time_ms as nat));
    }
    string_from_chars(v.as_slice())
}

/// The largest power of ten at most `t`, searching up from `m`.
pub open spec fn magnitude_from(t: nat, m: nat) -> nat
    decreases t - m,
{
    if m >= 1 && m <= t / 10 {
        magnitude_from(t, m * 10)
    } else {
        m
    }
}

/// The spacing of axis ticks for a target spacing: the largest of 1, 2, 5
/// or 10 times the power of ten below it that does not exceed it.
pub open spec fn tick_step(target: nat) -> nat {
    let m = magnitude_from(target, 1);
    if 10 * m <= target {
        10 * m
    } else if 5 * m <= target {
        5 * m
    } else if 2 * m <= target {
        2 * m
    } else {
        m
    }
}

/// The column of time `t` on an axis of `width` columns for `duration`.
pub open spec fn tick_position(t: nat, duration: nat, width: nat) -> nat {
    (t * (if width >= 1 { (width - 1) as nat } else { 0 })) / duration
}

/// The regular ticks from time `time` on, every `step`, while a tick is
/// more than half a step before the end.
pub open spec fn ticks_from(time: nat, duration: nat, step: nat, width: nat) -> Seq<(nat, nat)>
    decreases (if time < duration { duration - time } else { 0 }),
{
    if step >= 1 && time + step / 2 < duration {
        seq![(tick_position(time, duration, width), time)] + ticks_from(time + step, duration, step, width)
    } else {
        Seq::empty()
    }
}

/// The ticks of an axis: the regular ones, then the end.
pub open spec fn axis_ticks(duration: nat, width: nat) -> Seq<(nat, nat)> {
    let last: nat = if width >= 1 { (width - 1) as nat } else { 0 };
    if duration == 0 {
        seq![(0nat, 0nat), (last, 0nat)]
    } else {
        let target: nat = if duration / 4 >= 1 { duration / 4 } else { 1 };
        ticks_from(0, duration, tick_step(target), width).push((last, duration))
    }
}

/// The ticks as numbers.
pub open spec fn tick_views(ticks: Seq<(usize, u64)>) -> Seq<(nat, nat)> {
    ticks.map_values(|t: (usize, u64)| (t.0 as nat, t.1 as nat))
}

/// The ticks of a time axis `width` columns wide for `duration_ms`.
pub fn timeline_ticks(duration_ms: u64, width: usize) -> (ticks: Vec<(usize, u64)>)
    ensures
        tick_views(ticks@) == axis_ticks(duration_ms as nat, width as nat),
        forall|i: int| 0 <= i < ticks@.len() ==> (#[trigger] ticks@[i]).0 < width || (width == 0 && ticks@[i].0 == 0),
{
    let last = width.saturating_sub(1);
    let mut ticks: Vec<(usize, u64)> = Vec::new();
    if duration_ms == 0 {
        ticks.push((0, 0));
        ticks.push((last, 0));
        assert(tick_views(ticks@) =~= axis_ticks(duration_ms as nat, width as nat));
        return ticks;
    }
    let target: u64 = if duration_ms / 4 >= 1 { duration_ms / 4 } else { 1 };
    let mut m: u64 = 1;
    while m <= target / 10
        invariant
            1 <= m <= target,
            target >= 1,
            magnitude_from(target as nat, m as nat) == magnitude_from(target as nat, 1),
        decreases target - m,
    {
        m = m * 10;
    }
    let step: u64 = if m <= target / 10 {
        m * 10
    } else if m <= target / 5 {
        m * 5
    } else if m <= target / 2 {
        m * 2
    } else {
        m
    };
    proof {
        assert(magnitude_from(target as nat, m as nat) == m);
        assert((m <= target / 10) == (10 * m <= target));
        assert((m <= target / 5) == (5 * m <= target));
        assert((m <= target / 2) == (2 * m <= target));
        assert(step == tick_step(target as nat));
    }
    let ghost all = ticks_from(0, duration_ms as nat, step as nat, width as nat);
    let mut time: u64 = 0;
    while time.saturating_add(step / 2) < duration_ms
        invariant
            step >= 1,
            duration_ms >= 1,
            last as int == if width >= 1 { width - 1 } else { 0 },
            all == ticks_from(0, duration_ms as nat, step as nat, width as nat),
            tick_views(ticks@) + ticks_from(time as nat, duration_ms as nat, step as nat, width as nat) == all,
            forall|i: int| 0 <= i < ticks@.len() ==> (#[trigger] ticks@[i]).0 < width || (width == 0 && ticks@[i].0 == 0),
        decreases (if time < duration_ms { duration_ms - time } else { 0 }),
    {
        proof {
            assert((time as int) * (last as int) <= u128::MAX) by (nonlinear_arith)
                requires
                    0 <= time <= u64::MAX,
                    0 <= last <= u64::MAX,
            ;
        }
        let product: u128 = (time as u128) * (last as u128);
        let scaled: u128 = product / (duration_ms as u128);
        proof {
            let t = time as int;
            let l = last as int;
            let d = duration_ms as int;
            assert(t * l <= d * l) by (nonlinear_arith)
                requires
                    0 <= t < d,
                    l >= 0,
            ;
            assert((t * l) / d <= l) by (nonlinear_arith)
                requires
                    t * l <= d * l,
                    d >= 1,
                    l >= 0,
                    t >= 0,
            ;
            assert(product == t * l);
            assert(scaled as int == (t * l) / d);
        }
        let position = scaled as usize;
        let ghost before = ticks@;
        ticks.push((position, time));
        proof {
            assert(tick_views(ticks@) =~= tick_views(before).push((position as nat, time as nat)));
            assert(position as nat == tick_position(time as nat, duration_ms as nat, width as nat));
            let rest = ticks_from((time + step) as nat, duration_ms as nat, step as nat, width as nat);
            assert(ticks_from(time as nat, duration_ms as nat, step as nat, width as nat) == seq![(position as nat, time as nat)]
                + rest);
            assert(tick_views(ticks@) + rest =~= tick_views(before) + ticks_from(
                time as nat,
                duration_ms as nat,
                step as nat,
                width as nat,
            ));
        }
        let next = time.saturating_add(step);
        proof {
            if time as int + step as int > u64::MAX {
                assert(ticks_from((time + step) as nat, duration_ms as nat, step as nat, width as nat) == Seq::<(nat, nat)>::empty());
                assert(ticks_from(next as nat, duration_ms as nat, step as nat, width as nat) == Seq::<(nat, nat)>::empty());
            }
        }
        time = next;
    }
    proof {
        assert(ticks_from(time as nat, duration_ms as nat, step as nat, width as nat) =~= Seq::<(nat, nat)>::empty());
    }
    let ghost before = ticks@;
    ticks.push((last, duration_ms));
    proof {
        assert(tick_views(ticks@) =~= tick_views(before).push((last as nat, duration_ms as nat)));
    }
    ticks
}

/// The marker of tick `j` of `total`: the first and last close the axis.
pub open spec fn tick_marker(j: int, total: int) -> char {
    if j == 0 {
        '├'
    } else if j + 1 == total {
        '┤'
    } else {
        '┼'
    }
}

/// The axis after drawing the first `n` ticks.
pub open spec fn axis_after(width: nat, ticks: Seq<(usize, u64)>, n: int) -> Seq<char>
    decreases n,
{
    if n <= 0 {
        repeated('─', width)
    } else {
        axis_after(width, ticks, n - 1).update(ticks[n - 1].0 as int, tick_marker(n - 1, ticks.len() as int))
    }
}

/// A time axis: `─` with a marker at each tick's column.
pub fn time_axis(width: usize, ticks: &[(usize, u64)]) -> (out: String)
    requires
        forall|i: int| 0 <= i < ticks@.len() ==> (#[trigger] ticks@[i]).0 < width,
    ensures
        out@ == axis_after(width as nat, ticks@, ticks@.len() as int),
{
    let mut axis: Vec<char> = Vec::new();
    push_repeated(&mut axis, '─', width);
    let mut j: usize = 0;
    while j < ticks.len()
        invariant
            j <= ticks@.len(),
            forall|i: int| 0 <= i < ticks@.len() ==> (#[trigger] ticks@[i]).0 < width,
            axis@ == axis_after(width as nat, ticks@, j as int),
            axis@.len() == width,
        decreases ticks@.len() - j,
    {
        let marker = if j == 0 {
            '├'
        } else if j + 1 == ticks.len() {
            '┤'
        } else {
            '┼'
        };
        axis.set(ticks[j].0, marker);
        j = j + 1;
    }
    string_from_chars(axis.as_slice())
}

/// Where the label of tick `j` starts: at the left edge for the first,
/// flush right for the last, centred under the tick otherwise.
pub open spec fn label_start(width: nat, ticks: Seq<(usize, u64)>, j: int) -> int {
    let len = time_text(ticks[j].1 as nat).len();
    if j == 0 {
        0
    } else if j + 1 == ticks.len() {
        if width >= len { width - len } else { 0 }
    } else {
        if ticks[j].0 >= len / 2 { ticks[j].0 - len / 2 } else { 0 }
    }
}

/// The label row after writing the first `n` labels.
pub open spec fn labels_after(width: nat, ticks: Seq<(usize, u64)>, n: int) -> Seq<char>
    decreases n,
{
    if n <= 0 {
        repeated(' ', width)
    } else {
        overlaid(labels_after(width, ticks, n - 1), label_start(width, ticks, n - 1), time_text(ticks[n - 1].1 as nat))
    }
}

/// The time labels under a time axis.
pub fn time_labels(width: usize, ticks: &[(usize, u64)]) -> (out: String)
    ensures
        out@ == labels_after(width as nat, ticks@, ticks@.len() as int),
{
    let mut labels: Vec<char> = Vec::new();
    push_repeated(&mut labels, ' ', width);
    let mut j: usize = 0;
    while j < ticks.len()
        invariant
            j <= ticks@.len(),
            labels@ == labels_after(width as nat, ticks@, j as int),
        decreases ticks@.len() - j,
    {
        let label = format_time(ticks[j].1);
        let len = chars_of(label.as_str()).len();
        let start = if j == 0 {
            0
        } else if j + 1 == ticks.len() {
            width.saturating_sub(len)
        } else {
            ticks[j].0.saturating_sub(len / 2)
        };
        overlay(&mut labels, start, label.as_str());
        j = j + 1;
    }
    string_from_chars(labels.as_slice())
}

/// The first column of a span on a track `width` columns wide.
pub open spec fn span_first_column(start_ms: nat, duration: nat, width: nat) -> nat {
    let d: nat = if duration >= 1 { duration } else { 1 };
    let c = (start_ms * width) / d;
    let last: nat = if width >= 1 { (width - 1) as nat } else { 0 };
    if c <= last { c } else { last }
}

/// The column after a span on the track, at least two past its start.
pub open spec fn span_end_column(end_ms: nat, first: nat, duration: nat, width: nat) -> nat {
    let d: nat = if duration >= 1 { duration } else { 1 };
    let c: nat = ((end_ms * width + d - 1) as nat) / d;
    let widened: nat = if c >= first + 2 { c } else { first + 2 };
    if widened <= width { widened } else { width }
}

/// A track with one span drawn from column `s` up to `e`.
pub open spec fn span_drawn(track: Seq<char>, s: int, e: int, fill: char) -> Seq<char> {
    Seq::new(
        track.len(),
        |i: int|
            if i == e - 1 && e > s + 1 {
                '╯'
            } else if s < i < e - 1 {
                fill
            } else if i == s {
                '╰'
            } else {
                track[i]
            },
    )
}

/// The track after drawing the first `n` spans.
pub open spec fn track_after(ranges: Seq<crate::time::TimeRange>, duration: nat, width: nat, fill: char, n: int) -> Seq<char>
    decreases n,
{
    if n <= 0 {
        repeated(' ', width)
    } else {
        let r = ranges[n - 1];
        let s = span_first_column(r.start.0 as nat, duration, width);
        let e = span_end_column(r.end.0 as nat, s, duration, width);
        span_drawn(track_after(ranges, duration, width, fill, n - 1), s as int, e as int, fill)
    }
}

/// One row showing where the spans lie: `╰═══╯` for references, `╰───╯`
/// for predictions.
pub fn annotation_track(ranges: &[crate::time::TimeRange], duration_ms: u64, width: usize, reference: bool) -> (out: String)
    requires
        width > 0 || ranges@.len() == 0,
    ensures
        out@ == track_after(
            ranges@,
            duration_ms as nat,
            width as nat,
            if reference { '═' } else { '─' },
            ranges@.len() as int,
        ),
{
    let mut track: Vec<char> = Vec::new();
    push_repeated(&mut track, ' ', width);
    let fill = if reference { '═' } else { '─' };
    let d: u128 = if duration_ms >= 1 { duration_ms as u128 } else { 1 };
    let mut j: usize = 0;
    while j < ranges.len()
        invariant
            j <= ranges@.len(),
            width > 0 || ranges@.len() == 0,
            d as int == if duration_ms >= 1 { duration_ms as int } else { 1 },
            fill == if reference { '═' } else { '─' },
            track@.len() == width,
            track@ == track_after(ranges@, duration_ms as nat, width as nat, fill, j as int),
        decreases ranges@.len() - j,
    {
        let r = ranges[j];
        proof {
            assert((r.start.0 as int) * (width as int) <= u128::MAX) by (nonlinear_arith)
                requires
                    0 <= r.start.0 <= u64::MAX,
                    0 <= width <= u64::MAX,
            ;
            assert((r.end.0 as int) * (width as int) + d <= u128::MAX) by (nonlinear_arith)
                requires
                    0 <= r.end.0 <= u64::MAX,
                    0 <= width <= u64::MAX,
                    1 <= d <= u64::MAX,
            ;
        }
        let first_raw: u128 = (r.start.0 as u128) * (width as u128) / d;
        let last = width - 1;
        let s: usize = if first_raw <= last as u128 { first_raw as usize } else { last };
        let end_raw: u128 = ((r.end.0 as u128) * (width as u128) + d - 1) / d;
        let widened: u128 = if end_raw >= (s as u128) + 2 { end_raw } else { (s as u128) + 2 };
        let e: usize = if widened <= width as u128 { widened as usize } else { width };
        proof {
            assert(s as nat == span_first_column(r.start.0 as nat, duration_ms as nat, width as nat));
            assert(e as nat == span_end_column(r.end.0 as nat, s as nat, duration_ms as nat, width as nat));
        }
        let ghost before = track@;
        assert(e >= 1);
        track.set(s, '╰');
        let mut c = s + 1;
        while c < e - 1
            invariant
                s < width,
                1 <= e <= width,
                before.len() == width,
                s + 1 <= c,
                c <= e || c == s + 1,
                track@.len() == width,
                forall|i: int|
                    0 <= i < width ==> #[trigger] track@[i] == if s < i < c && i < e - 1 {
                        fill
                    } else if i == s {
                        '╰'
                    } else {
                        before[i]
                    },
            decreases e - c,
        {
            track.set(c, fill);
            c = c + 1;
        }
        if e > s + 1 {
            track.set(e - 1, '╯');
        }
        proof {
            assert(track@ =~= span_drawn(before, s as int, e as int, fill));
        }
        j = j + 1;
    }
    string_from_chars(track.as_slice())
}

/// The title of the group a span is listed under.
pub open spec fn group_title(role: Seq<char>, span: TimeSpan) -> Seq<char> {
    if role == "Reference"@ {
        role + " · "@ + annotation_type_text(span.annotation)
    } else {
        role + " · "@ + annotation_type_text(span.annotation) + " · "@ + match span.source {
            Some(source) => source@,
            None => "reference"@,
        }
    }
}

/// The first group titled `title`.
pub open spec fn find_group(groups: Seq<(Seq<char>, Seq<int>)>, title: Seq<char>, k: int) -> Option<int>
    decreases groups.len() - k,
{
    if k < 0 || k >= groups.len() {
        None
    } else if groups[k].0 == title {
        Some(k)
    } else {
        find_group(groups, title, k + 1)
    }
}

proof fn lemma_find_group(groups: Seq<(Seq<char>, Seq<int>)>, title: Seq<char>, k: int)
    requires
        0 <= k,
    ensures
        match find_group(groups, title, k) {
            Some(j) => k <= j < groups.len() && groups[j].0 == title,
            None => forall|j: int| k <= j < groups.len() ==> groups[j].0 != title,
        },
    decreases groups.len() - k,
{
    if k < groups.len() && groups[k].0 != title {
        lemma_find_group(groups, title, k + 1);
    }
}

/// The groups after listing the first `n` spans: each span joins the group
/// of its title, a new title opens a group at the end.
pub open spec fn groups_after(role: Seq<char>, spans: Seq<TimeSpan>, n: int) -> Seq<(Seq<char>, Seq<int>)>
    decreases n,
{
    if n <= 0 {
        Seq::empty()
    } else {
        let g = groups_after(role, spans, n - 1);
        let t = group_title(role, spans[n - 1]);
        match find_group(g, t, 0) {
            Some(k) => g.update(k, (t, g[k].1.push(n - 1))),
            None => g.push((t, seq![n - 1])),
        }
    }
}

/// The titles and span positions of groups.
pub open spec fn group_views(groups: Seq<(String, Vec<usize>)>) -> Seq<(Seq<char>, Seq<int>)> {
    groups.map_values(|g: (String, Vec<usize>)| (g.0@, g.1@.map_values(|i: usize| i as int)))
}

/// The title of the group a span is listed under.
fn span_group_title(role: &str, span: &TimeSpan) -> (out: String)
    ensures
        out@ == group_title(role@, *span),
{
    let r = chars_of(role);
    let mut v = chars_of(role);
    append_str(&mut v, " · ");
    append_str(&mut v, annotation_type_name(&span.annotation));
    if !crate::chars::chars_eq_str(r.as_slice(), "Reference") {
        append_str(&mut v, " · ");
        match &span.source {
            Some(source) => append_str(&mut v, source.as_str()),
            None => append_str(&mut v, "reference"),
        }
    }
    string_from_chars(v.as_slice())
}

/// The spans grouped by kind (and, for predictions, by source), groups in
/// order of first appearance, each with its spans' positions in order.
pub fn annotation_groups(role: &str, spans: &[TimeSpan]) -> (groups: Vec<(String, Vec<usize>)>)
    ensures
        group_views(groups@) == groups_after(role@, spans@, spans@.len() as int),
{
    let mut groups: Vec<(String, Vec<usize>)> = Vec::new();
    let mut i: usize = 0;
    while i < spans.len()
        invariant
            i <= spans@.len(),
            group_views(groups@) == groups_after(role@, spans@, i as int),
        decreases spans@.len() - i,
    {
        let title = span_group_title(role, &spans[i]);
        let ghost g = group_views(groups@);
        let mut k: usize = 0;
        let mut found = false;
        while k < groups.len() && !found
            invariant
                k <= groups@.len(),
                g == group_views(groups@),
                found ==> k < groups@.len() && find_group(g, title@, 0) == Some(k as int),
                !found ==> find_group(g, title@, 0) == find_group(g, title@, k as int),
            decreases groups@.len() - k + if found { 0int } else { 1int },
        {
            if groups[k].0 == title {
                found = true;
            } else {
                k = k + 1;
            }
        }
        let ghost before = groups@;
        if found {
            let mut members = copy_range(groups[k].1.as_slice(), 0, groups[k].1.len());
            let ghost old_members = groups@[k as int].1@;
            assert(members@ =~= old_members);
            members.push(i);
            proof {
                assert(members@.map_values(|x: usize| x as int) =~= old_members.map_values(|x: usize| x as int).push(
                    i as int,
                ));
                lemma_find_group(g, title@, 0);
                assert(g[k as int].0 == title@);
            }
            let entry = (title, members);
            groups.set(k, entry);
            proof {
                assert(group_views(groups@) =~= g.update(k as int, (title@, g[k as int].1.push(i as int))));
            }
        } else {
            let mut members: Vec<usize> = Vec::new();
            members.push(i);
            proof {
                assert(members@.map_values(|x: usize| x as int) =~= seq![i as int]);
            }
            let ghost t = title@;
            groups.push((title, members));
            proof {
                assert(find_group(g, t, k as int) is None);
                assert(group_views(groups@) =~= g.push((t, seq![i as int])));
            }
        }
        i = i + 1;
    }
    groups
}

/// The text before the first `?` or `#`.
pub open spec fn before_query(url: Seq<char>) -> Seq<char> {
    match crate::repr::query_start(url) {
        Some(i) => url.take(i),
        None => url,
    }
}

/// The text after the last `/`, or all of it.
pub open spec fn after_last_slash(s: Seq<char>) -> Seq<char> {
    if exists|k: int| 0 <= k < s.len() && s[k] == '/' {
        s.skip((choose|k: int| 0 <= k < s.len() && s[k] == '/' && forall|j: int| k < j < s.len() ==> s[j] != '/') + 1)
    } else {
        s
    }
}

/// How a document's source reads in a summary. For PCM, `rate_name` is
/// the text of its sample rate.
pub open spec fn source_text(source: AudioSource, rate_name: Seq<char>) -> Seq<char> {
    match source {
        AudioSource::Path(path) => path@,
        AudioSource::Url(url) => {
            let base = before_query(url@);
            let file = after_last_slash(base);
            match url_host(base) {
                Some(host) => if file.len() > 0 {
                    (match host {
                        Some(h) => h,
                        None => "url"@,
                    }) + "…/"@ + file
                } else {
                    base
                },
                None => base,
            }
        },
        AudioSource::Base64(data) => "[base64 audio · "@ + decimal_digits((vstd::utf8::encode_utf8(data@).len() as usize) as nat)
            + " characters]"@,
        AudioSource::EncodedBytes(bytes) => "[encoded audio · "@ + grouped(decimal_digits(bytes@.len())) + " bytes]"@,
        AudioSource::PcmS16Le { bytes, sample_rate, channels } => "[PCM S16LE · "@ + grouped(decimal_digits(bytes@.len()))
            + " bytes · "@ + rate_name + " · "@ + channel_count_text(channels) + "]"@,
    }
}

/// The part of a URL before its query or fragment.
fn url_without_query(url: &str) -> (base: Vec<char>)
    ensures
        base@ == before_query(url@),
{
    let chars = chars_of(url);
    let mut cut: usize = chars.len();
    let mut found = false;
    let mut i: usize = 0;
    while i < chars.len() && !found
        invariant
            i <= chars@.len(),
            chars@ == url@,
            cut <= chars@.len(),
            found ==> cut < chars@.len() && (chars@[cut as int] == '?' || chars@[cut as int] == '#') && forall|j: int|
                0 <= j < cut ==> chars@[j] != '?' && chars@[j] != '#',
            !found ==> cut == chars@.len() && forall|j: int| 0 <= j < i ==> chars@[j] != '?' && chars@[j] != '#',
        decreases chars@.len() - i,
    {
        if chars[i] == '?' || chars[i] == '#' {
            found = true;
            cut = i;
        }
        i = i + 1;
    }
    proof {
        if found {
            let w = choose|k: int|
                0 <= k < url@.len() && (url@[k] == '?' || url@[k] == '#') && forall|j: int|
                    0 <= j < k ==> url@[j] != '?' && url@[j] != '#';
            assert(0 <= w < url@.len() && (url@[w] == '?' || url@[w] == '#'));
            if w < cut {
                assert(chars@[w] != '?' && chars@[w] != '#');
            }
            if w > cut {
                assert(url@[cut as int] != '?' && url@[cut as int] != '#');
            }
            assert(crate::repr::query_start(url@) == Some(cut as int));
            assert(chars@.subrange(0, cut as int) =~= url@.take(cut as int));
        } else {
            assert(crate::repr::query_start(url@) is None);
            assert(chars@.subrange(0, cut as int) =~= url@);
        }
    }
    copy_range(chars.as_slice(), 0, cut)
}

/// The text after the last `/`, or all of it.
fn last_segment(s: &[char]) -> (file: Vec<char>)
    ensures
        file@ == after_last_slash(s@),
{
    let mut k = s.len();
    let mut found = false;
    while k > 0 && !found
        invariant
            k <= s@.len(),
            found ==> k < s@.len() && s@[k as int] == '/' && forall|j: int| k < j < s@.len() ==> s@[j] != '/',
            !found ==> forall|j: int| k <= j < s@.len() ==> s@[j] != '/',
        decreases k + if found { 0int } else { 1int },
    {
        if s[k - 1] == '/' {
            found = true;
            k = k - 1;
        } else {
            k = k - 1;
        }
    }
    if found {
        proof {
            let w = choose|m: int| 0 <= m < s@.len() && s@[m] == '/' && forall|j: int| m < j < s@.len() ==> s@[j] != '/';
            assert(0 <= w < s@.len() && s@[w] == '/');
            if w < k {
                assert(s@[k as int] != '/');
            }
            if w > k {
                assert(s@[w] != '/');
            }
            assert(s@.subrange(k + 1, s@.len() as int) =~= s@.skip(k + 1));
        }
        copy_range(s, k + 1, s.len())
    } else {
        proof {
            if exists|m: int| 0 <= m < s@.len() && s@[m] == '/' {
                let m = choose|m: int| 0 <= m < s@.len() && s@[m] == '/';
                assert(s@[m] != '/');
            }
            assert(s@.subrange(0, s@.len() as int) =~= s@);
        }
        copy_range(s, 0, s.len())
    }
}

/// How a document's source reads in a summary; `rate_name` is the text of
/// a PCM source's sample rate.
pub fn source_name(source: &AudioSource, rate_name: &str) -> (out: String)
    ensures
        out@ == source_text(*source, rate_name@),
{
    match source {
        AudioSource::Path(path) => path.clone(),
        AudioSource::Url(url) => {
            let base = url_without_query(url.as_str());
            let base_text = string_from_chars(base.as_slice());
            let file = last_segment(base.as_slice());
            match parse_url_host(base_text.as_str()) {
                Some(host) => {
                    if file.len() > 0 {
                        let mut v: Vec<char> = match host {
                            Some(h) => chars_of(h.as_str()),
                            None => chars_of("url"),
                        };
                        append_str(&mut v, "…/");
                        append_chars(&mut v, file.as_slice());
                        string_from_chars(v.as_slice())
                    } else {
                        base_text
                    }
                },
                None => base_text,
            }
        },
        AudioSource::Base64(data) => {
            let mut v = chars_of("[base64 audio · ");
            let digits = decimal_chars(data.as_str().len() as u64);
            append_chars(&mut v, digits.as_slice());
            append_str(&mut v, " characters]");
            string_from_chars(v.as_slice())
        },
        AudioSource::EncodedBytes(bytes) => {
            let mut v = chars_of("[encoded audio · ");
            append_str(&mut v, grouped_number(bytes.len() as u64).as_str());
            append_str(&mut v, " bytes]");
            string_from_chars(v.as_slice())
        },
        AudioSource::PcmS16Le { bytes, sample_rate, channels } => {
            let mut v = chars_of("[PCM S16LE · ");
            append_str(&mut v, grouped_number(bytes.len() as u64).as_str());
            append_str(&mut v, " bytes · ");
            append_str(&mut v, rate_name);
            append_str(&mut v, " · ");
            append_str(&mut v, channel_count_name(*channels).as_str());
            append_str(&mut v, "]");
            string_from_chars(v.as_slice())
        },
    }
}

/// The short label of an annotation on its track: an event or token as
/// is, a transcription or sentence in curly quotes, a speaker by name, a
/// language by tag.
pub open spec fn label_text(annotation: Annotation) -> Seq<char> {
    match annotation {
        Annotation::Activity(event) => event@,
        Annotation::Token(text) => text@,
        Annotation::Transcription(text) => seq!['“'] + text@ + seq!['”'],
        Annotation::Sentence(text) => seq!['“'] + text@ + seq!['”'],
        Annotation::Speaker(speaker) => speaker.name@,
        Annotation::Language(tag) => tag@,
    }
}

/// The short label of an annotation.
pub fn annotation_label(span: &TimeSpan) -> (label: String)
    ensures
        label@ == label_text(span.annotation),
{
    match &span.annotation {
        Annotation::Activity(event) => event.clone(),
        Annotation::Token(text) => text.clone(),
        Annotation::Transcription(text) | Annotation::Sentence(text) => {
            let mut v: Vec<char> = Vec::new();
            v.push('“');
            append_str(&mut v, text.as_str());
            v.push('”');
            string_from_chars(v.as_slice())
        },
        Annotation::Speaker(speaker) => speaker.name.clone(),
        Annotation::Language(tag) => tag.clone(),
    }
}

/// The lines an annotation shows in its detail box: its time range and
/// label, then a speaker's transcription in curly quotes.
pub open spec fn detail_lines(span: TimeSpan) -> Seq<Seq<char>> {
    let head = time_text(span.range.start.0 as nat) + seq!['–'] + time_text(span.range.end.0 as nat) + seq![' ', ' ']
        + label_text(span.annotation);
    match span.annotation {
        Annotation::Speaker(speaker) => match speaker.transcription {
            Some(text) => seq![head, seq!['“'] + text@ + seq!['”']],
            None => seq![head],
        },
        _ => seq![head],
    }
}

/// The lines an annotation shows in its detail box.
pub fn annotation_detail_lines(span: &TimeSpan) -> (lines: Vec<String>)
    ensures
        lines@.map_values(|l: String| l@) == detail_lines(*span),
{
    let mut head = chars_of(format_time(span.range.start.0).as_str());
    head.push('–');
    append_str(&mut head, format_time(span.range.end.0).as_str());
    head.push(' ');
    head.push(' ');
    append_str(&mut head, annotation_label(span).as_str());
    let ghost head_text = time_text(span.range.start.0 as nat) + seq!['–'] + time_text(span.range.end.0 as nat) + seq![' ', ' ']
        + label_text(span.annotation);
    assert(head@ =~= head_text);
    let mut lines: Vec<String> = Vec::new();
    lines.push(string_from_chars(head.as_slice()));
    assert(lines@.map_values(|l: String| l@) =~= seq![head_text]);
    if let Annotation::Speaker(speaker) = &span.annotation {
        if let Some(text) = &speaker.transcription {
            let mut quoted: Vec<char> = Vec::new();
            quoted.push('“');
            append_str(&mut quoted, text.as_str());
            quoted.push('”');
            let ghost before = lines@;
            lines.push(string_from_chars(quoted.as_slice()));
            assert(lines@.map_values(|l: String| l@) =~= before.map_values(|l: String| l@).push(quoted@));
            assert(quoted@ =~= seq!['“'] + text@ + seq!['”']);
        }
    }
    assert(lines@.map_values(|l: String| l@) =~= detail_lines(*span));
    lines
}

/// A line of a card `width` columns wide: `│ `, the value cut to fit,
/// padding, ` │`.
pub open spec fn card_text(width: nat, value: Seq<char>) -> Seq<char> {
    let content: nat = if width >= 4 { (width - 4) as nat } else { 0 };
    let v = fitted(value, content);
    let padding: nat = if content >= text_columns(v) { (content - text_columns(v)) as nat } else { 0 };
    seq!['│', ' '] + v + repeated(' ', padding) + seq![' ', '│']
}

/// A line of a card.
pub fn card_line(width: usize, value: &str) -> (line: String)
    ensures
        line@ == card_text(width as nat, value@),
{
    let content = width.saturating_sub(4);
    let fitted_value = truncate_columns(value, content);
    let padding = content.saturating_sub(display_width(fitted_value.as_str()));
    let mut v: Vec<char> = Vec::new();
    v.push('│');
    v.push(' ');
    append_str(&mut v, fitted_value.as_str());
    push_repeated(&mut v, ' ', padding);
    v.push(' ');
    v.push('│');
    assert(v@ =~= seq!['│', ' '] + fitted_value@ + repeated(' ', padding as nat) + seq![' ', '│']);
    string_from_chars(v.as_slice())
}

/// The card lines of the detail lines of the spans at `members`, in order.
pub open spec fn member_card_lines(width: nat, spans: Seq<TimeSpan>, members: Seq<int>) -> Seq<Seq<char>>
    decreases members.len(),
{
    if members.len() == 0 {
        Seq::empty()
    } else {
        member_card_lines(width, spans, members.drop_last()) + detail_lines(spans[members.last()]).map_values(
            |l: Seq<char>| card_text(width, l),
        )
    }
}

/// The detail box of a group: a top edge with the name, a card line per
/// detail line of each member, a bottom edge.
pub open spec fn box_lines(name: Seq<char>, spans: Seq<TimeSpan>, members: Seq<int>, width: nat) -> Seq<Seq<char>> {
    let title = seq![' '] + name + seq![' '];
    let rule: nat = if width >= 3 + text_columns(title) { (width - 3 - text_columns(title)) as nat } else { 0 };
    let bottom: nat = if width >= 2 { (width - 2) as nat } else { 0 };
    seq![seq!['╭', '─'] + title + repeated('─', rule) + seq!['╮']] + member_card_lines(width, spans, members) + seq![
        seq!['╰'] + repeated('─', bottom) + seq!['╯'],
    ]
}

/// The detail box of the spans at `members`, named `name`.
pub fn annotation_box(name: &str, spans: &[TimeSpan], members: &[usize], width: usize) -> (lines: Vec<String>)
    requires
        forall|k: int| 0 <= k < members@.len() ==> (#[trigger] members@[k]) < spans@.len(),
    ensures
        lines@.map_values(|l: String| l@) == box_lines(name@, spans@, members@.map_values(|m: usize| m as int), width as nat),
{
    let ghost ms = members@.map_values(|m: usize| m as int);
    let mut title: Vec<char> = Vec::new();
    title.push(' ');
    append_str(&mut title, name);
    title.push(' ');
    assert(title@ =~= seq![' '] + name@ + seq![' ']);
    let title_text = string_from_chars(title.as_slice());
    let rule = width.saturating_sub(3usize.saturating_add(display_width(title_text.as_str())));
    let mut top: Vec<char> = Vec::new();
    top.push('╭');
    top.push('─');
    append_chars(&mut top, title.as_slice());
    push_repeated(&mut top, '─', rule);
    top.push('╮');
    let ghost title_cols = text_columns(title@);
    let ghost rule_n: nat = if width >= 3 + title_cols { (width - 3 - title_cols) as nat } else { 0 };
    assert(rule as nat == rule_n);
    assert(top@ =~= seq!['╭', '─'] + (seq![' '] + name@ + seq![' ']) + repeated('─', rule_n) + seq!['╮']);
    let mut lines: Vec<String> = Vec::new();
    lines.push(string_from_chars(top.as_slice()));
    let ghost head = lines@.map_values(|l: String| l@);
    assert(head =~= seq![top@]);
    let mut k: usize = 0;
    while k < members.len()
        invariant
            k <= members@.len(),
            ms == members@.map_values(|m: usize| m as int),
            forall|j: int| 0 <= j < members@.len() ==> (#[trigger] members@[j]) < spans@.len(),
            head.len() == 1,
            lines@.map_values(|l: String| l@) == head + member_card_lines(width as nat, spans@, ms.take(k as int)),
        decreases members@.len() - k,
    {
        let detail = annotation_detail_lines(&spans[members[k]]);
        let ghost before = lines@.map_values(|l: String| l@);
        let ghost dl = detail_lines(spans@[members@[k as int] as int]);
        let mut d: usize = 0;
        while d < detail.len()
            invariant
                d <= detail@.len(),
                detail@.map_values(|l: String| l@) == dl,
                lines@.map_values(|l: String| l@) == before + dl.take(d as int).map_values(|l: Seq<char>| card_text(width as nat, l)),
            decreases detail@.len() - d,
        {
            let ghost prior = lines@;
            lines.push(card_line(width, detail[d].as_str()));
            proof {
                assert(lines@.map_values(|l: String| l@) =~= prior.map_values(|l: String| l@).push(card_text(width as nat, dl[d as int])));
                assert(dl.take(d + 1).map_values(|l: Seq<char>| card_text(width as nat, l)) =~= dl.take(d as int).map_values(
                    |l: Seq<char>| card_text(width as nat, l),
                ).push(card_text(width as nat, dl[d as int])));
            }
            d = d + 1;
        }
        proof {
            assert(dl.take(detail@.len() as int) =~= dl);
            assert(ms.take(k + 1).drop_last() =~= ms.take(k as int));
            assert(ms.take(k + 1).last() == members@[k as int] as int);
        }
        k = k + 1;
    }
    assert(ms.take(members@.len() as int) =~= ms);
    let mut bottom: Vec<char> = Vec::new();
    bottom.push('╰');
    push_repeated(&mut bottom, '─', width.saturating_sub(2));
    bottom.push('╯');
    let ghost body = lines@.map_values(|l: String| l@);
    let ghost bottom_text = seq!['╰'] + repeated('─', (if width >= 2 { (width - 2) as nat } else { 0 })) + seq!['╯'];
    assert(bottom@ =~= bottom_text);
    let ghost prior = lines@;
    lines.push(string_from_chars(bottom.as_slice()));
    proof {
        assert(lines@.map_values(|l: String| l@) =~= prior.map_values(|l: String| l@).push(bottom_text));
        assert(body =~= head + member_card_lines(width as nat, spans@, ms));
        assert(lines@.map_values(|l: String| l@) =~= box_lines(name@, spans@, ms, width as nat));
    }
    lines
}

/// The columns of the label cell in front of a track.
pub const LABEL_WIDTH: usize = 28;

/// A group title in the label cell: cut to the cell's columns, then padded
/// with spaces to its width in characters.
pub open spec fn label_cell(title: Seq<char>) -> Seq<char> {
    let t = fitted(title, LABEL_WIDTH as nat);
    t + repeated(' ', if t.len() < LABEL_WIDTH { (LABEL_WIDTH - t.len()) as nat } else { 0 })
}

/// The time ranges of the spans at `members`.
pub open spec fn group_ranges(spans: Seq<TimeSpan>, members: Seq<int>) -> Seq<crate::time::TimeRange> {
    members.map_values(|m: int| spans[m].range)
}

/// The track fill of a role: double for the reference, single otherwise.
pub open spec fn role_fill(role: Seq<char>) -> char {
    if role == "Reference"@ { '═' } else { '─' }
}

/// The lines of one group: its track under its label, then its detail box.
pub open spec fn group_lines(
    role: Seq<char>,
    spans: Seq<TimeSpan>,
    group: (Seq<char>, Seq<int>),
    duration: nat,
    plot_width: nat,
    width: nat,
    style: Seq<char>,
    colored: bool,
) -> Seq<Seq<char>> {
    let ranges = group_ranges(spans, group.1);
    seq![label_cell(group.0) + painted(style, track_after(ranges, duration, plot_width, role_fill(role), ranges.len() as int), colored)]
        + box_lines(group.0, spans, group.1, width)
}

/// The lines of the groups, one group after another.
#[verifier::opaque]
pub open spec fn section_lines(
    role: Seq<char>,
    spans: Seq<TimeSpan>,
    groups: Seq<(Seq<char>, Seq<int>)>,
    duration: nat,
    plot_width: nat,
    width: nat,
    style: Seq<char>,
    colored: bool,
) -> Seq<Seq<char>>
    decreases groups.len(),
{
    if groups.len() == 0 {
        Seq::empty()
    } else {
        section_lines(role, spans, groups.drop_last(), duration, plot_width, width, style, colored) + group_lines(
            role,
            spans,
            groups.last(),
            duration,
            plot_width,
            width,
            style,
            colored,
        )
    }
}

/// Every group lists positions of spans already seen, and no group is empty.
proof fn lemma_group_members_bounded(role: Seq<char>, spans: Seq<TimeSpan>, n: int)
    requires
        0 <= n <= spans.len(),
    ensures
        forall|g: int, k: int|
            0 <= g < groups_after(role, spans, n).len() && 0 <= k < groups_after(role, spans, n)[g].1.len() ==> 0
                <= #[trigger] groups_after(role, spans, n)[g].1[k] < n,
        forall|g: int| 0 <= g < groups_after(role, spans, n).len() ==> #[trigger] groups_after(role, spans, n)[g].1.len() > 0,
    decreases n,
{
    if n > 0 {
        lemma_group_members_bounded(role, spans, n - 1);
        let g0 = groups_after(role, spans, n - 1);
        let t = group_title(role, spans[n - 1]);
        lemma_find_group(g0, t, 0);
    }
}

/// The lines that show the annotations of one role: per group, a track
/// under the group's label and a box with the details of its annotations.
pub fn annotation_section(
    role: &str,
    spans: &[TimeSpan],
    duration_ms: u64,
    plot_width: usize,
    width: usize,
    style: &str,
    colored: bool,
) -> (lines: Vec<String>)
    requires
        plot_width > 0 || spans@.len() == 0,
    ensures
        lines@.map_values(|l: String| l@) == section_lines(
            role@,
            spans@,
            groups_after(role@, spans@, spans@.len() as int),
            duration_ms as nat,
            plot_width as nat,
            width as nat,
            style@,
            colored,
        ),
{
    let groups = annotation_groups(role, spans);
    let ghost gs = groups_after(role@, spans@, spans@.len() as int);
    proof {
        reveal(section_lines);
        lemma_group_members_bounded(role@, spans@, spans@.len() as int);
        reveal_strlit("Reference");
    }
    let is_reference = crate::chars::chars_eq_str(chars_of(role).as_slice(), "Reference");
    let mut lines: Vec<String> = Vec::new();
    let mut g: usize = 0;
    while g < groups.len()
        invariant
            g <= groups@.len(),
            group_views(groups@) == gs,
            gs == groups_after(role@, spans@, spans@.len() as int),
            is_reference == (role@ == "Reference"@),
            plot_width > 0 || spans@.len() == 0,
            forall|a: int, k: int| 0 <= a < gs.len() && 0 <= k < gs[a].1.len() ==> 0 <= #[trigger] gs[a].1[k] < spans@.len(),
            forall|a: int| 0 <= a < gs.len() ==> #[trigger] gs[a].1.len() > 0,
            lines@.map_values(|l: String| l@) == section_lines(
                role@,
                spans@,
                gs.take(g as int),
                duration_ms as nat,
                plot_width as nat,
                width as nat,
                style@,
                colored,
            ),
        decreases groups@.len() - g,
    {
        let title = &groups[g].0;
        let members = &groups[g].1;
        let ghost ms = members@.map_values(|m: usize| m as int);
        assert(gs[g as int] == (title@, ms));
        assert forall|j: int| 0 <= j < ms.len() implies 0 <= #[trigger] ms[j] < spans@.len() by {
            assert(gs[g as int].1[j] == ms[j]);
        }
        assert(gs[g as int].1.len() > 0);
        let mut ranges: Vec<crate::time::TimeRange> = Vec::new();
        let mut k: usize = 0;
        while k < members.len()
            invariant
                k <= members@.len(),
                ms == members@.map_values(|m: usize| m as int),
                forall|j: int| 0 <= j < ms.len() ==> 0 <= #[trigger] ms[j] < spans@.len(),
                ranges@ == group_ranges(spans@, ms.take(k as int)),
            decreases members@.len() - k,
        {
            assert(ms[k as int] == members@[k as int] as int);
            ranges.push(spans[members[k]].range);
            assert(group_ranges(spans@, ms.take(k + 1)) =~= group_ranges(spans@, ms.take(k as int)).push(spans@[ms[k as int]].range));
            k = k + 1;
        }
        assert(ms.take(members@.len() as int) =~= ms);
        assert(ms.len() > 0);
        let track = annotation_track(ranges.as_slice(), duration_ms, plot_width, is_reference);
        let cell = truncate_columns(title.as_str(), LABEL_WIDTH);
        let mut line = chars_of(cell.as_str());
        let pad = if line.len() < LABEL_WIDTH { LABEL_WIDTH - line.len() } else { 0 };
        push_repeated(&mut line, ' ', pad);
        append_str(&mut line, paint(style, track.as_str(), colored).as_str());
        let ghost before = lines@.map_values(|l: String| l@);
        lines.push(string_from_chars(line.as_slice()));
        proof {
            assert forall|j: int| 0 <= j < members@.len() implies (#[trigger] members@[j]) < spans@.len() by {
                assert(ms[j] == members@[j] as int);
            }
        }
        let boxed = annotation_box(title.as_str(), spans, members.as_slice(), width);
        let mut b: usize = 0;
        let ghost head = lines@.map_values(|l: String| l@);
        while b < boxed.len()
            invariant
                b <= boxed@.len(),
                lines@.map_values(|l: String| l@) == head + boxed@.map_values(|l: String| l@).take(b as int),
            decreases boxed@.len() - b,
        {
            let ghost prior = lines@;
            lines.push(boxed[b].clone());
            assert(lines@.map_values(|l: String| l@) =~= prior.map_values(|l: String| l@).push(boxed@[b as int]@));
            assert(boxed@.map_values(|l: String| l@).take(b + 1) =~= boxed@.map_values(|l: String| l@).take(b as int).push(
                boxed@[b as int]@,
            ));
            b = b + 1;
        }
        proof {
            reveal(section_lines);
            assert(boxed@.map_values(|l: String| l@).take(boxed@.len() as int) =~= boxed@.map_values(|l: String| l@));
            assert(line@ =~= label_cell(title@) + painted(
                style@,
                track_after(group_ranges(spans@, ms), duration_ms as nat, plot_width as nat, role_fill(role@), ms.len() as int),
                colored,
            ));
            assert(gs.take(g + 1).drop_last() =~= gs.take(g as int));
            assert(gs.take(g + 1).last() == gs[g as int]);
            assert(lines@.map_values(|l: String| l@) =~= before + group_lines(
                role@,
                spans@,
                gs[g as int],
                duration_ms as nat,
                plot_width as nat,
                width as nat,
                style@,
                colored,
            ));
        }
        g = g + 1;
    }
    assert(gs.take(groups@.len() as int) =~= gs);
    lines
}

/// `\x1b[2m`, dim text.
pub open spec fn dim_style() -> Seq<char> {
    seq!['\x1b', '[', '2', 'm']
}

/// `\x1b[32m`, green text.
pub open spec fn green_style() -> Seq<char> {
    seq!['\x1b', '[', '3', '2', 'm']
}

/// `\x1b[34m`, blue text.
pub open spec fn blue_style() -> Seq<char> {
    seq!['\x1b', '[', '3', '4', 'm']
}

/// `\x1b[33m`, yellow text.
pub open spec fn yellow_style() -> Seq<char> {
    seq!['\x1b', '[', '3', '3', 'm']
}

/// A label padded with spaces to the label column's width in characters.
pub open spec fn padded_label(label: Seq<char>) -> Seq<char> {
    label + repeated(' ', if label.len() < LABEL_WIDTH { (LABEL_WIDTH - label.len()) as nat } else { 0 })
}

/// The ticks of an axis, as positions and times.
pub open spec fn tick_values(duration: nat, width: nat) -> Seq<(usize, u64)> {
    axis_ticks(duration, width).map_values(|t: (nat, nat)| (t.0 as usize, t.1 as u64))
}

/// The lines of one channel: its waveform line under its label, then the
/// reference and prediction sections when there are annotations.
pub open spec fn channel_block(
    channel: AudioChannel,
    t: Timeline,
    waveform: Seq<char>,
    duration: nat,
    plot_width: nat,
    width: nat,
    colored: bool,
) -> Seq<Seq<char>> {
    let reference = t.reference@;
    let prediction = t.prediction@;
    seq![padded_label(channel_label_text(channel)) + painted(green_style(), waveform, colored)] + (if reference.len() > 0 {
        section_lines(
            "Reference"@,
            reference,
            groups_after("Reference"@, reference, reference.len() as int),
            duration,
            plot_width,
            width,
            blue_style(),
            colored,
        )
    } else {
        Seq::empty()
    }) + (if prediction.len() > 0 {
        section_lines(
            "Prediction"@,
            prediction,
            groups_after("Prediction"@, prediction, prediction.len() as int),
            duration,
            plot_width,
            width,
            yellow_style(),
            colored,
        )
    } else {
        Seq::empty()
    })
}

/// The lines of each channel, in channel order.
pub open spec fn channel_lines(
    timelines: Seq<(AudioChannel, Timeline)>,
    waveforms: Seq<Seq<char>>,
    duration: nat,
    plot_width: nat,
    width: nat,
    colored: bool,
) -> Seq<Seq<char>>
    decreases timelines.len(),
{
    if timelines.len() == 0 {
        Seq::empty()
    } else {
        let k = timelines.len() - 1;
        channel_lines(timelines.drop_last(), waveforms, duration, plot_width, width, colored) + channel_block(
            timelines[k].0,
            timelines[k].1,
            waveforms[k],
            duration,
            plot_width,
            width,
            colored,
        )
    }
}

/// The lines of one channel.
fn channel_block_lines(
    channel: AudioChannel,
    timeline: &Timeline,
    waveform: &str,
    duration: u64,
    plot: usize,
    width: usize,
    colored: bool,
) -> (lines: Vec<String>)
    requires
        plot > 0,
    ensures
        lines@.map_values(|l: String| l@) == channel_block(
            channel,
            *timeline,
            waveform@,
            duration as nat,
            plot as nat,
            width as nat,
            colored,
        ),
{
    proof {
        reveal_strlit("\x1b[32m");
        reveal_strlit("\x1b[33m");
        reveal_strlit("\x1b[34m");
    }
    let mut line = chars_of(channel_label(channel).as_str());
    let pad = if line.len() < LABEL_WIDTH { LABEL_WIDTH - line.len() } else { 0 };
    push_repeated(&mut line, ' ', pad);
    append_str(&mut line, paint("\x1b[32m", waveform, colored).as_str());
    let mut lines: Vec<String> = Vec::new();
    lines.push(string_from_chars(line.as_slice()));
    let reference_lines: Vec<String> = if timeline.reference.len() > 0 {
        annotation_section("Reference", timeline.reference.as_slice(), duration, plot, width, "\x1b[34m", colored)
    } else {
        Vec::new()
    };
    let prediction_lines: Vec<String> = if timeline.prediction.len() > 0 {
        annotation_section("Prediction", timeline.prediction.as_slice(), duration, plot, width, "\x1b[33m", colored)
    } else {
        Vec::new()
    };
    let ghost first = lines@.map_values(|l: String| l@);
    append_lines(&mut lines, &reference_lines);
    append_lines(&mut lines, &prediction_lines);
    proof {
        assert(first =~= seq![line@]);
        assert(line@ =~= padded_label(channel_label_text(channel)) + painted(green_style(), waveform@, colored));
        assert(blue_style() == "\x1b[34m"@);
        assert(yellow_style() == "\x1b[33m"@);
        let reference = timeline.reference@;
        let prediction = timeline.prediction@;
        let rp = if reference.len() > 0 {
            section_lines(
                "Reference"@,
                reference,
                groups_after("Reference"@, reference, reference.len() as int),
                duration as nat,
                plot as nat,
                width as nat,
                blue_style(),
                colored,
            )
        } else {
            Seq::empty()
        };
        let pp = if prediction.len() > 0 {
            section_lines(
                "Prediction"@,
                prediction,
                groups_after("Prediction"@, prediction, prediction.len() as int),
                duration as nat,
                plot as nat,
                width as nat,
                yellow_style(),
                colored,
            )
        } else {
            Seq::empty()
        };
        if reference.len() == 0 {
            assert(reference_lines@.map_values(|l: String| l@) =~= Seq::<Seq<char>>::empty());
        }
        if prediction.len() == 0 {
            assert(prediction_lines@.map_values(|l: String| l@) =~= Seq::<Seq<char>>::empty());
        }
        assert(reference_lines@.map_values(|l: String| l@) == rp);
        assert(prediction_lines@.map_values(|l: String| l@) == pp);
        assert(lines@.map_values(|l: String| l@) == seq![line@] + rp + pp);
    }
    lines
}

/// The footer label: the sample count, or that no waveform is loaded.
pub open spec fn footer_label(samples: Option<usize>) -> Seq<char> {
    match samples {
        Some(n) => grouped(decimal_digits(n as nat)) + " samples"@,
        None => "waveform unavailable"@,
    }
}

/// The timeline part of a document's summary: an empty line, the time
/// labels and axis, the lines of each channel, and a footer rule.
pub open spec fn timeline_view(audio: Audio, width: nat, waveforms: Seq<Seq<char>>, samples: Option<usize>, colored: bool) -> Seq<
    Seq<char>,
> {
    let plot: nat = if width >= LABEL_WIDTH { (width - LABEL_WIDTH) as nat } else { 0 };
    let duration = audio.info.spec_timeline_duration_ms();
    let ticks = tick_values(duration, plot);
    let indent = repeated(' ', LABEL_WIDTH as nat);
    seq![
        Seq::empty(),
        indent + painted(dim_style(), labels_after(plot, ticks, ticks.len() as int), colored),
        indent + painted(dim_style(), axis_after(plot, ticks, ticks.len() as int), colored),
    ] + channel_lines(audio.timelines@, waveforms, duration, plot, width, colored) + seq![
        indent + painted(dim_style(), centered_rule_text(footer_label(samples), plot), colored),
    ]
}

/// The timeline part of a document's summary, given the waveform line of
/// each channel (in channel order) and the number of loaded samples.
pub fn timeline_lines(audio: &Audio, width: usize, waveforms: &[String], samples: Option<usize>, colored: bool) -> (lines: Vec<
    String,
>)
    requires
        audio.info.sample_rate > 0,
        width > LABEL_WIDTH,
        waveforms@.len() == audio.timelines@.len(),
    ensures
        lines@.map_values(|l: String| l@) == timeline_view(
            *audio,
            width as nat,
            waveforms@.map_values(|w: String| w@),
            samples,
            colored,
        ),
{
    let plot = width - LABEL_WIDTH;
    let duration = audio.info.timeline_duration_ms();
    let ticks = timeline_ticks(duration, plot);
    proof {
        reveal_strlit("\x1b[2m");
        reveal_strlit("\x1b[32m");
        reveal_strlit("\x1b[33m");
        reveal_strlit("\x1b[34m");
        reveal_strlit("");
        reveal_strlit(" samples");
        reveal_strlit("waveform unavailable");
    }
    proof {
        assert(ticks@ =~= tick_values(duration as nat, plot as nat)) by {
            assert forall|k: int| 0 <= k < ticks@.len() implies ticks@[k] == tick_values(duration as nat, plot as nat)[k] by {
                assert(tick_views(ticks@)[k] == axis_ticks(duration as nat, plot as nat)[k]);
            }
        }
    }
    let ghost wv = waveforms@.map_values(|w: String| w@);
    let mut indent: Vec<char> = Vec::new();
    push_repeated(&mut indent, ' ', LABEL_WIDTH);
    let labels = time_labels(plot, ticks.as_slice());
    let axis = time_axis(plot, ticks.as_slice());
    let mut lines: Vec<String> = Vec::new();
    let blank_line: Vec<char> = Vec::new();
    lines.push(string_from_chars(blank_line.as_slice()));
    let mut first: Vec<char> = Vec::new();
    push_repeated(&mut first, ' ', LABEL_WIDTH);
    append_str(&mut first, paint("\x1b[2m", labels.as_str(), colored).as_str());
    lines.push(string_from_chars(first.as_slice()));
    let mut second: Vec<char> = Vec::new();
    push_repeated(&mut second, ' ', LABEL_WIDTH);
    append_str(&mut second, paint("\x1b[2m", axis.as_str(), colored).as_str());
    lines.push(string_from_chars(second.as_slice()));
    let ghost head = lines@.map_values(|l: String| l@);
    proof {
        let indent_text = repeated(' ', LABEL_WIDTH as nat);
        assert(first@ =~= indent_text + painted(dim_style(), labels_after(plot as nat, ticks@, ticks@.len() as int), colored));
        assert(second@ =~= indent_text + painted(dim_style(), axis_after(plot as nat, ticks@, ticks@.len() as int), colored));
        assert(head =~= seq![
            Seq::<char>::empty(),
            indent_text + painted(dim_style(), labels_after(plot as nat, ticks@, ticks@.len() as int), colored),
            indent_text + painted(dim_style(), axis_after(plot as nat, ticks@, ticks@.len() as int), colored),
        ]);
    }
    let mut k: usize = 0;
    while k < audio.timelines.len()
        invariant
            k <= audio.timelines@.len(),
            waveforms@.len() == audio.timelines@.len(),
            wv == waveforms@.map_values(|w: String| w@),
            plot > 0,
            lines@.map_values(|l: String| l@) == head + channel_lines(
                audio.timelines@.take(k as int),
                wv,
                duration as nat,
                plot as nat,
                width as nat,
                colored,
            ),
        decreases audio.timelines@.len() - k,
    {
        let block = channel_block_lines(
            audio.timelines[k].0,
            &audio.timelines[k].1,
            waveforms[k].as_str(),
            duration,
            plot,
            width,
            colored,
        );
        let ghost before = lines@.map_values(|l: String| l@);
        append_lines(&mut lines, &block);
        proof {
            let tl = audio.timelines@.take(k + 1);
            assert(tl.drop_last() =~= audio.timelines@.take(k as int));
            assert(tl[k as int] == audio.timelines@[k as int]);
            assert(wv[k as int] == waveforms@[k as int]@);
        }
        k = k + 1;
    }
    assert(audio.timelines@.take(audio.timelines@.len() as int) =~= audio.timelines@);
    let footer_text = match samples {
        Some(n) => {
            let mut v = chars_of(grouped_number(n as u64).as_str());
            append_str(&mut v, " samples");
            string_from_chars(v.as_slice())
        },
        None => "waveform unavailable".to_owned(),
    };
    let mut last: Vec<char> = Vec::new();
    push_repeated(&mut last, ' ', LABEL_WIDTH);
    append_str(&mut last, paint("\x1b[2m", centered_rule(footer_text.as_str(), plot).as_str(), colored).as_str());
    let ghost body = lines@.map_values(|l: String| l@);
    lines.push(string_from_chars(last.as_slice()));
    proof {
        let indent_text = repeated(' ', LABEL_WIDTH as nat);
        assert(indent@ =~= indent_text);
        assert(footer_text@ =~= footer_label(samples));
        assert(last@ =~= indent_text + painted(dim_style(), centered_rule_text(footer_label(samples), plot as nat), colored));
        assert(lines@.map_values(|l: String| l@) =~= body.push(last@));
    }
    lines
}

/// Appends copies of `more`.
fn append_lines(lines: &mut Vec<String>, more: &Vec<String>)
    ensures
        final(lines)@.map_values(|l: String| l@) == old(lines)@.map_values(|l: String| l@) + more@.map_values(|l: String| l@),
{
    let ghost start = lines@.map_values(|l: String| l@);
    let mut i: usize = 0;
    while i < more.len()
        invariant
            i <= more@.len(),
            start == old(lines)@.map_values(|l: String| l@),
            lines@.map_values(|l: String| l@) == start + more@.map_values(|l: String| l@).take(i as int),
        decreases more@.len() - i,
    {
        let ghost prior = lines@;
        lines.push(more[i].clone());
        assert(lines@.map_values(|l: String| l@) =~= prior.map_values(|l: String| l@).push(more@[i as int]@));
        assert(more@.map_values(|l: String| l@).take(i + 1) =~= more@.map_values(|l: String| l@).take(i as int).push(more@[i as int]@));
        i = i + 1;
    }
    assert(more@.map_values(|l: String| l@).take(more@.len() as int) =~= more@.map_values(|l: String| l@));
}

} // verus!
