//! The record codec: one journal entry to and from an authenticated,
//! nonce-prefixed, base64 record line.

use vstd::prelude::*;
use crate::crypto::{aead_open, b64_parse, open_record, b64_decode};
use crate::entry::{Entry, EntryModel};
use crate::text::{
    all_digits, chars_of, copy_range, dec_str, dec_val, find_char, find_char_in,
    lemma_dec_str_digits, lemma_dec_val_of_dec_str, lemma_find_char, parse_u32_chars,
    parse_u32_or_zero, split_first_at, string_of,
};

verus! {

/// The serialized plaintext of an entry: `id|timestamp|word_count|content`.
/// Only the first three delimiters separate fields, so the content may hold
/// the delimiter itself.
pub open spec fn serial(e: EntryModel) -> Seq<char> {
    e.id + seq!['|'] + e.timestamp + seq!['|'] + dec_str(e.word_count as int) + seq!['|']
        + e.content
}

/// Parse a plaintext record into its four fields.  At most three delimiters
/// are honoured; missing fields read as empty (a missing word count as 0),
/// the lenient behaviour of the store's readers.
pub open spec fn parse_record(s: Seq<char>) -> EntryModel {
    let (id, rest1) = split_first_at(s, '|');
    match rest1 {
        None => EntryModel {
            id,
            timestamp: Seq::empty(),
            word_count: 0,
            content: Seq::empty(),
        },
        Some(r1) => {
            let (ts, rest2) = split_first_at(r1, '|');
            match rest2 {
                None => EntryModel { id, timestamp: ts, word_count: 0, content: Seq::empty() },
                Some(r2) => {
                    let (wc, rest3) = split_first_at(r2, '|');
                    match rest3 {
                        None => EntryModel {
                            id,
                            timestamp: ts,
                            word_count: parse_u32_or_zero(wc),
                            content: Seq::empty(),
                        },
                        Some(r3) => EntryModel {
                            id,
                            timestamp: ts,
                            word_count: parse_u32_or_zero(wc),
                            content: r3,
                        },
                    }
                },
            }
        },
    }
}

/// Splitting `a + '|' + b` at the first delimiter recovers `a` and `b` when
/// `a` itself is delimiter-free.
proof fn lemma_split_concat(a: Seq<char>, b: Seq<char>)
    requires
        !a.contains('|'),
    ensures
        split_first_at(a + seq!['|'] + b, '|') == (a, Some(b)),
{
    let s = a + seq!['|'] + b;
    assert(s[a.len() as int] == '|');
    assert forall|j: int| 0 <= j < a.len() implies s[j] != '|' by {
        assert(s[j] == a[j]);
        if a[j] == '|' {
            assert(a.contains('|'));
        }
    }
    lemma_find_char(s, '|');
    match find_char(s, '|') {
        Some(i0) => {
            if i0 < a.len() {
                assert(s[i0] != '|');
            } else if i0 > a.len() {
                assert(s[a.len() as int] != '|');
            }
            assert(i0 == a.len());
            assert(s.take(i0) =~= a);
            assert(s.skip(i0 + 1) =~= b);
        },
        None => {
            assert(s[a.len() as int] != '|');
        },
    }
}

/// Round trip of the plaintext layout: parsing a serialized record gives the
/// entry back, for every well-formed entry.
pub proof fn lemma_parse_serial(e: EntryModel)
    requires
        e.wf(),
    ensures
        parse_record(serial(e)) == e,
{
    let d = dec_str(e.word_count as int);
    lemma_dec_str_digits(e.word_count as int);
    lemma_dec_val_of_dec_str(e.word_count as int);
    let tail1 = e.timestamp + seq!['|'] + d + seq!['|'] + e.content;
    let tail2 = d + seq!['|'] + e.content;
    assert(serial(e) =~= e.id + seq!['|'] + tail1);
    lemma_split_concat(e.id, tail1);
    assert(tail1 =~= e.timestamp + seq!['|'] + tail2);
    lemma_split_concat(e.timestamp, tail2);
    assert(!d.contains('|')) by {
        if d.contains('|') {
            let k = choose|k: int| 0 <= k < d.len() && d[k] == '|';
            assert(all_digits(d));
        }
    }
    lemma_split_concat(d, e.content);
    assert(parse_u32_or_zero(d) == e.word_count);
}

/// What reading one record line yields.
pub ghost enum LineOutcome {
    /// A record that decoded and parsed.
    Found(EntryModel),
    /// A decodable line shorter than the nonce: skipped by readers.
    SkippedShort,
    /// Malformed base64.
    Malformed,
    /// Authentication failed: wrong key or corrupt data.
    Unreadable,
}

/// Decoding one base64 line of the backing file under a key.
pub open spec fn decode_line_spec(line: Seq<char>, key: Seq<u8>) -> LineOutcome {
    match b64_parse(line) {
        None => LineOutcome::Malformed,
        Some(data) => if data.len() < 12 {
            LineOutcome::SkippedShort
        } else {
            match aead_open(key, data.take(12), data.skip(12)) {
                None => LineOutcome::Unreadable,
                Some(plain) => LineOutcome::Found(parse_record(plain)),
            }
        },
    }
}

/// The executable counterpart of `LineOutcome`.
pub enum DecodedLine {
    Found(Entry),
    SkippedShort,
    Malformed,
    Unreadable,
}

/// Parse a plaintext record into an entry, exactly as `parse_record` says.
pub fn parse_record_chars(v: &[char]) -> (e: Entry)
    ensures
        e@ == parse_record(v@),
{
    let (id, rest1) = split_off_field(v);
    match rest1 {
        None => Entry { id, timestamp: String::new(), word_count: 0, content: String::new() },
        Some(r1) => {
            let (timestamp, rest2) = split_off_field(r1.as_slice());
            match rest2 {
                None => Entry { id, timestamp, word_count: 0, content: String::new() },
                Some(r2) => {
                    let (wc_text, rest3) = split_off_field(r2.as_slice());
                    let word_count = parse_field_u32(&wc_text);
                    match rest3 {
                        None => Entry { id, timestamp, word_count, content: String::new() },
                        Some(r3) => Entry {
                            id,
                            timestamp,
                            word_count,
                            content: string_of(r3.as_slice()),
                        },
                    }
                },
            }
        },
    }
}

/// One field up to the first delimiter, and what follows it.
fn split_off_field(v: &[char]) -> (r: (String, Option<Vec<char>>))
    ensures
        ({
            let (head, rest) = split_first_at(v@, '|');
            &&& r.0@ == head
            &&& match r.1 {
                Some(rv) => rest == Some(rv@),
                None => rest is None,
            }
        }),
{
    match find_char_in(v, '|') {
        Some(i) => {
            proof {
                lemma_find_char(v@, '|');
            }
            let vlen = v.len();
            let head = string_of(copy_range(v, 0, i).as_slice());
            let rest = copy_range(v, i + 1, vlen);
            (head, Some(rest))
        },
        None => (string_of(v), None),
    }
}

/// The lenient word-count reading: unparsable counts as zero.
fn parse_field_u32(s: &String) -> (r: u32)
    ensures
        r == parse_u32_or_zero(s@),
{
    let v = chars_of(s.as_str());
    match parse_u32_chars(v.as_slice()) {
        Some(n) => n,
        None => 0,
    }
}

/// Decode one line of the backing file under a derived key.
pub fn decode_line(line: &str, key: &Vec<u8>) -> (r: DecodedLine)
    requires
        key@.len() == 32,
    ensures
        match r {
            DecodedLine::Found(e) => decode_line_spec(line@, key@) == LineOutcome::Found(e@),
            DecodedLine::SkippedShort => decode_line_spec(line@, key@)
                == LineOutcome::SkippedShort,
            DecodedLine::Malformed => decode_line_spec(line@, key@) == LineOutcome::Malformed,
            DecodedLine::Unreadable => decode_line_spec(line@, key@) == LineOutcome::Unreadable,
        },
{
    let data = match b64_decode(line) {
        Some(d) => d,
        None => {
            return DecodedLine::Malformed;
        },
    };
    if data.len() < 12 {
        return DecodedLine::SkippedShort;
    }
    let nonce = copy_range(data.as_slice(), 0, 12);
    let ct = copy_range(data.as_slice(), 12, data.len());
    assert(nonce@ =~= data@.take(12));
    assert(ct@ =~= data@.skip(12));
    match open_record(key, &nonce, &ct) {
        Some(plain) => {
            let chars = chars_of(plain.as_str());
            let entry = parse_record_chars(chars.as_slice());
            DecodedLine::Found(entry)
        },
        None => DecodedLine::Unreadable,
    }
}

} // verus!
