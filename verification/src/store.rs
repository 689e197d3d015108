//! The journal store's read and write surface.
//!
//! The store is stateless: every operation takes the backing file's lines
//! (or `None` when the file does not exist) and the caller's password, and
//! returns either decoded values or the new line to append.  File I/O stays
//! with the caller.

use vstd::prelude::*;
use crate::codec::{
    decode_line, decode_line_spec, lemma_parse_serial, serial, DecodedLine, LineOutcome,
};
use crate::crypto::{
    aead_open, aead_seal, b64_encode, b64_parse, derive_key, fresh_nonce, is_base64_char, key_of,
    new_record_id, seal_record,
};
use crate::entry::{summary_of, Entry, EntryModel, Summary};
use crate::text::{string_of, u32_digits};
use vstd::string::StringExecFns;

verus! {

/// Everything that can go wrong inside the store.  I/O failures stay with
/// the caller, who owns the backing file.
#[derive(Clone, Copy, PartialEq, Eq, Structural, Debug)]
pub enum StoreError {
    /// An export was asked of a store whose backing file does not exist.
    NotFound,
    /// A line of the backing file is not valid base64.
    FormatError,
    /// A record failed authentication: wrong password or corrupt data, the
    /// two cannot be told apart.
    WrongKeyOrCorruptData,
    /// The operating system's entropy source failed to yield a nonce.
    RandomnessFailure,
    /// A record's plaintext is too long for the cipher.
    DataTooLong,
}

/// Create an entry with a fresh random identifier.
pub fn new_entry(timestamp: String, word_count: u32, content: String) -> (e: Entry)
    ensures
        e@.timestamp == timestamp@,
        e@.word_count == word_count,
        e@.content == content@,
        !e@.id.contains('|'),
        e@.id.len() == 36,
        !timestamp@.contains('|') ==> e@.wf(),
{
    let id = new_record_id();
    proof {
        if id@.contains('|') {
            let k = choose|k: int| 0 <= k < id@.len() && id@[k] == '|';
        }
    }
    Entry { id, timestamp, word_count, content }
}

/// Render an entry's plaintext record: `id|timestamp|word_count|content`.
pub fn entry_plaintext(e: &Entry) -> (r: String)
    ensures
        r@ == serial(e@),
{
    let mut r = e.id.clone();
    r.push('|');
    r.append(e.timestamp.as_str());
    r.push('|');
    let wc = string_of(u32_digits(e.word_count).as_slice());
    r.append(wc.as_str());
    r.push('|');
    r.append(e.content.as_str());
    assert(r@ =~= serial(e@));
    r
}

/// The persisted layout of one sealed line: the base64 of a 12-byte nonce
/// followed by the ciphertext-plus-tag of `text` under `key` and that
/// nonce, a ciphertext that authenticates back to `text`.
pub open spec fn line_seals(line: Seq<char>, key: Seq<u8>, text: Seq<char>) -> bool {
    exists|nonce: Seq<u8>|
        {
            &&& nonce.len() == 12
            &&& b64_parse(line) == Some(nonce + #[trigger] aead_seal(key, nonce, text))
            &&& aead_open(key, nonce, aead_seal(key, nonce, text)) == Some(text)
        }
}

/// A sealed line as it goes to the backing file: the layout of `line_seals`,
/// written entirely in the base64 alphabet — so it holds no newline and
/// occupies exactly one line of the file.
pub open spec fn sealed_text_line(line: Seq<char>, key: Seq<u8>, text: Seq<char>) -> bool {
    &&& line_seals(line, key, text)
    &&& forall|i: int| 0 <= i < line.len() ==> is_base64_char(#[trigger] line[i])
    &&& !line.contains('\n')
}

/// A record line for entry `e`: the sealed layout carries `serial(e)`, and
/// reading the line back under the same key yields exactly `e`.
pub open spec fn sealed_entry_line(line: Seq<char>, key: Seq<u8>, e: EntryModel) -> bool {
    &&& sealed_text_line(line, key, serial(e))
    &&& decode_line_spec(line, key) == LineOutcome::Found(e)
}

/// Encode one entry as a record line under the key derived from `password`.
///
/// On success the line is `base64(nonce ++ seal(key, nonce, serial(entry)))`
/// for a fresh 12-byte nonce, holds no newline, and decodes, under the same
/// password, back to exactly this entry — the codec's round trip.  Failure
/// comes only from the entropy source or from a plaintext beyond the
/// cipher's bound.
pub fn encode_entry_line(entry: &Entry, password: &str) -> (r: Result<String, StoreError>)
    requires
        entry@.wf(),
    ensures
        match r {
            Ok(line) => sealed_entry_line(line@, key_of(password@), entry@),
            Err(err) => err == StoreError::RandomnessFailure || err == StoreError::DataTooLong,
        },
        r matches Err(err) && err == StoreError::DataTooLong ==> serial(entry@).len()
            > 0x4_0000_0000,
{
    let key = derive_key(password);
    let nonce = match fresh_nonce() {
        Some(n) => n,
        None => {
            return Err(StoreError::RandomnessFailure);
        },
    };
    let plain = entry_plaintext(entry);
    let ct = match seal_record(&key, &nonce, plain.as_str()) {
        Some(c) => c,
        None => {
            return Err(StoreError::DataTooLong);
        },
    };
    let ghost nonce_view = nonce@;
    let mut data = nonce;
    let mut ct = ct;
    data.append(&mut ct);
    let line = b64_encode(&data);
    proof {
        assert(data@.take(12) =~= nonce_view);
        assert(data@.skip(12) =~= aead_seal(key@, nonce_view, plain@));
        lemma_parse_serial(entry@);
        assert(data@ =~= nonce_view + aead_seal(key@, nonce_view, serial(entry@)));
        assert(line_seals(line@, key_of(password@), serial(entry@))) by {
            assert(aead_open(key@, nonce_view, aead_seal(key@, nonce_view, serial(entry@)))
                == Some(serial(entry@)));
        }
        assert(!line@.contains('\n')) by {
            if line@.contains('\n') {
                let k = choose|k: int| 0 <= k < line@.len() && line@[k] == '\n';
                assert(is_base64_char(line@[k]));
            }
        }
    }
    Ok(line)
}

/// Decoding a whole backing file, line by line: short decodable lines are
/// skipped; the first malformed or unauthentic line aborts the read with no
/// partial result.
pub open spec fn decode_lines(lines: Seq<Seq<char>>, key: Seq<u8>) -> Result<
    Seq<EntryModel>,
    StoreError,
>
    decreases lines.len(),
{
    if lines.len() == 0 {
        Ok(Seq::empty())
    } else {
        match decode_line_spec(lines[0], key) {
            LineOutcome::Found(e) => match decode_lines(lines.drop_first(), key) {
                Ok(rest) => Ok(seq![e] + rest),
                Err(err) => Err(err),
            },
            LineOutcome::SkippedShort => decode_lines(lines.drop_first(), key),
            LineOutcome::Malformed => Err(StoreError::FormatError),
            LineOutcome::Unreadable => Err(StoreError::WrongKeyOrCorruptData),
        }
    }
}

/// Decrypt every record of the backing file, in file order.
pub fn load_entries(lines: &Vec<String>, password: &str) -> (r: Result<Vec<Entry>, StoreError>)
    ensures
        ({
            let d = decode_lines(lines@.map_values(|l: String| l@), key_of(password@));
            match r {
                Ok(es) => d == Ok::<_, StoreError>(es@.map_values(|e: Entry| e@)),
                Err(err) => d == Err::<Seq<EntryModel>, _>(err),
            }
        }),
{
    let key = derive_key(password);
    let ghost s = lines@.map_values(|l: String| l@);
    let mut out: Vec<Entry> = Vec::new();
    let n = lines.len();
    let mut i: usize = 0;
    proof {
        assert(s.skip(0) =~= s);
        assert(out@.map_values(|e: Entry| e@) =~= Seq::<EntryModel>::empty());
        match decode_lines(s, key@) {
            Ok(rest) => {
                assert(Seq::<EntryModel>::empty() + rest =~= rest);
            },
            Err(_) => {},
        }
    }
    while i < n
        invariant
            0 <= i <= n == lines@.len(),
            key@ == key_of(password@),
            key@.len() == 32,
            s == lines@.map_values(|l: String| l@),
            match decode_lines(s.skip(i as int), key@) {
                Ok(rest) => decode_lines(s, key@) == Ok::<_, StoreError>(
                    out@.map_values(|e: Entry| e@) + rest,
                ),
                Err(err) => decode_lines(s, key@) == Err::<Seq<EntryModel>, _>(err),
            },
        decreases n - i,
    {
        proof {
            let suffix = s.skip(i as int);
            assert(suffix.len() > 0);
            assert(suffix[0] == s[i as int]);
            assert(suffix.drop_first() =~= s.skip(i as int + 1));
        }
        let line = &lines[i];
        assert(line@ == s[i as int]);
        match decode_line(line.as_str(), &key) {
            DecodedLine::Found(e) => {
                proof {
                    let f = |e: Entry| e@;
                    assert(out@.push(e).map_values(f) =~= out@.map_values(f).push(e@));
                    match decode_lines(s.skip(i as int + 1), key@) {
                        Ok(rest) => {
                            assert(out@.map_values(f) + (seq![e@] + rest) =~= out@.map_values(
                                f,
                            ).push(e@) + rest);
                        },
                        Err(_) => {},
                    }
                }
                out.push(e);
            },
            DecodedLine::SkippedShort => {},
            DecodedLine::Malformed => {
                return Err(StoreError::FormatError);
            },
            DecodedLine::Unreadable => {
                return Err(StoreError::WrongKeyOrCorruptData);
            },
        }
        i = i + 1;
    }
    proof {
        assert(s.skip(n as int) =~= Seq::<Seq<char>>::empty());
        assert(out@.map_values(|e: Entry| e@) + Seq::<EntryModel>::empty() =~= out@.map_values(
            |e: Entry| e@,
        ));
    }
    Ok(out)
}

/// The summary of one entry: date, time, word count; content withheld.
pub fn summarize(e: &Entry) -> (s: Summary)
    ensures
        s@ == summary_of(e@),
{
    let tchars = crate::text::chars_of(e.timestamp.as_str());
    match crate::text::find_char_in(tchars.as_slice(), ' ') {
        None => Summary {
            date: string_of(tchars.as_slice()),
            time: String::new(),
            word_count: e.word_count,
        },
        Some(i) => {
            proof {
                crate::text::lemma_find_char(tchars@, ' ');
            }
            let tlen = tchars.len();
            let date = string_of(crate::text::copy_range(tchars.as_slice(), 0, i).as_slice());
            let rest = crate::text::copy_range(tchars.as_slice(), i + 1, tlen);
            let time = match crate::text::find_char_in(rest.as_slice(), ' ') {
                None => string_of(rest.as_slice()),
                Some(j) => {
                    proof {
                        crate::text::lemma_find_char(rest@, ' ');
                    }
                    string_of(crate::text::copy_range(rest.as_slice(), 0, j).as_slice())
                },
            };
            Summary { date, time, word_count: e.word_count }
        },
    }
}

/// Read the whole store as summaries.  A missing backing file reads as an
/// empty store; a malformed or unauthentic record aborts the whole read.
pub fn load_all(file: Option<&Vec<String>>, password: &str) -> (r: Result<
    Vec<Summary>,
    StoreError,
>)
    ensures
        match file {
            None => r matches Ok(v) && v@.len() == 0,
            Some(lines) => ({
                let d = decode_lines(lines@.map_values(|l: String| l@), key_of(password@));
                match r {
                    Ok(sums) => d matches Ok(es) && sums@.map_values(|s: Summary| s@)
                        == es.map_values(|e: EntryModel| summary_of(e)),
                    Err(err) => d == Err::<Seq<EntryModel>, _>(err),
                }
            }),
        },
{
    let lines = match file {
        None => {
            return Ok(Vec::new());
        },
        Some(lines) => lines,
    };
    let entries = match load_entries(lines, password) {
        Ok(es) => es,
        Err(err) => {
            return Err(err);
        },
    };
    let mut sums: Vec<Summary> = Vec::new();
    let n = entries.len();
    let mut i: usize = 0;
    while i < n
        invariant
            0 <= i <= n == entries@.len(),
            sums@.map_values(|s: Summary| s@) == entries@.take(i as int).map_values(
                |e: Entry| e@,
            ).map_values(|e: EntryModel| summary_of(e)),
        decreases n - i,
    {
        let s = summarize(&entries[i]);
        sums.push(s);
        proof {
            let fs = |s: Summary| s@;
            let fe = |e: Entry| e@;
            let fm = |e: EntryModel| summary_of(e);
            assert(sums@.map_values(fs) =~= entries@.take(i as int + 1).map_values(fe).map_values(
                fm,
            )) by {
                assert(entries@.take(i as int + 1) =~= entries@.take(i as int).push(
                    entries@[i as int],
                ));
                assert(entries@.take(i as int).push(entries@[i as int]).map_values(fe)
                    =~= entries@.take(i as int).map_values(fe).push(entries@[i as int]@));
                assert(entries@.take(i as int).map_values(fe).push(entries@[i as int]@).map_values(
                    fm,
                ) =~= entries@.take(i as int).map_values(fe).map_values(fm).push(
                    summary_of(entries@[i as int]@),
                ));
            }
        }
        i = i + 1;
    }
    proof {
        assert(entries@.take(n as int) =~= entries@);
    }
    Ok(sums)
}

/// Appending a good record line to a healthy store extends its read by
/// exactly that record, in order: appends accumulate.
pub proof fn lemma_append_accumulates(
    lines: Seq<Seq<char>>,
    line: Seq<char>,
    key: Seq<u8>,
    prev: Seq<EntryModel>,
    e: EntryModel,
)
    requires
        decode_lines(lines, key) == Ok::<_, StoreError>(prev),
        decode_line_spec(line, key) == LineOutcome::Found(e),
    ensures
        decode_lines(lines.push(line), key) == Ok::<_, StoreError>(prev.push(e)),
    decreases lines.len(),
{
    let grown = lines.push(line);
    if lines.len() == 0 {
        assert(grown[0] == line);
        assert(grown.drop_first() =~= Seq::<Seq<char>>::empty());
        assert(seq![e] + Seq::<EntryModel>::empty() =~= prev.push(e));
    } else {
        assert(grown[0] == lines[0]);
        assert(grown.drop_first() =~= lines.drop_first().push(line));
        match decode_line_spec(lines[0], key) {
            LineOutcome::Found(e0) => {
                match decode_lines(lines.drop_first(), key) {
                    Ok(rest) => {
                        lemma_append_accumulates(lines.drop_first(), line, key, rest, e);
                        assert(prev == seq![e0] + rest);
                        assert(seq![e0] + rest.push(e) =~= prev.push(e));
                    },
                    Err(_) => {
                        assert(false);
                    },
                }
            },
            LineOutcome::SkippedShort => {
                lemma_append_accumulates(lines.drop_first(), line, key, prev, e);
            },
            LineOutcome::Malformed => {
                assert(false);
            },
            LineOutcome::Unreadable => {
                assert(false);
            },
        }
    }
}

/// Appending many good record lines to a healthy store extends its read by
/// exactly those records, in order.
pub proof fn lemma_append_many_accumulates(
    lines: Seq<Seq<char>>,
    new_lines: Seq<Seq<char>>,
    key: Seq<u8>,
    prev: Seq<EntryModel>,
    added: Seq<EntryModel>,
)
    requires
        decode_lines(lines, key) == Ok::<_, StoreError>(prev),
        added.len() == new_lines.len(),
        forall|i: int|
            0 <= i < new_lines.len() ==> decode_line_spec(#[trigger] new_lines[i], key)
                == LineOutcome::Found(added[i]),
    ensures
        decode_lines(lines + new_lines, key) == Ok::<_, StoreError>(prev + added),
    decreases new_lines.len(),
{
    if new_lines.len() == 0 {
        assert(lines + new_lines =~= lines);
        assert(prev + added =~= prev);
    } else {
        let head_lines = new_lines.drop_last();
        let head_added = added.drop_last();
        lemma_append_many_accumulates(lines, head_lines, key, prev, head_added);
        assert(decode_line_spec(new_lines.last(), key) == LineOutcome::Found(added.last()));
        lemma_append_accumulates(
            lines + head_lines,
            new_lines.last(),
            key,
            prev + head_added,
            added.last(),
        );
        assert((lines + head_lines).push(new_lines.last()) =~= lines + new_lines);
        assert((prev + head_added).push(added.last()) =~= prev + added);
    }
}

/// A decodable line shorter than the nonce, wherever it stands in the file,
/// never changes what a read returns: it is skipped, not fatal.
pub proof fn lemma_short_line_skipped(
    before: Seq<Seq<char>>,
    line: Seq<char>,
    after: Seq<Seq<char>>,
    key: Seq<u8>,
)
    requires
        decode_line_spec(line, key) == LineOutcome::SkippedShort,
    ensures
        decode_lines(before + seq![line] + after, key) == decode_lines(before + after, key),
    decreases before.len(),
{
    if before.len() == 0 {
        let s = before + seq![line] + after;
        assert(s[0] == line);
        assert(s.drop_first() =~= after);
        assert(before + after =~= after);
    } else {
        let s = before + seq![line] + after;
        let t = before + after;
        assert(s[0] == before[0]);
        assert(t[0] == before[0]);
        assert(s.drop_first() =~= before.drop_first() + seq![line] + after);
        assert(t.drop_first() =~= before.drop_first() + after);
        lemma_short_line_skipped(before.drop_first(), line, after, key);
    }
}

/// Seal free text as one record line, the raw write path: a random nonce,
/// then the ciphertext, base64-encoded.  The sealed line holds no newline
/// and authenticates back to the same text under the same password.
pub fn seal_text(content: &str, password: &str) -> (r: Result<String, StoreError>)
    ensures
        match r {
            Ok(line) => sealed_text_line(line@, key_of(password@), content@),
            Err(err) => err == StoreError::RandomnessFailure || err == StoreError::DataTooLong,
        },
        r matches Err(err) && err == StoreError::DataTooLong ==> content@.len() > 0x4_0000_0000,
{
    let key = derive_key(password);
    let nonce = match fresh_nonce() {
        Some(n) => n,
        None => {
            return Err(StoreError::RandomnessFailure);
        },
    };
    let ct = match seal_record(&key, &nonce, content) {
        Some(c) => c,
        None => {
            return Err(StoreError::DataTooLong);
        },
    };
    let ghost nonce_view = nonce@;
    let mut data = nonce;
    let mut ct = ct;
    data.append(&mut ct);
    let line = b64_encode(&data);
    proof {
        assert(data@ =~= nonce_view + aead_seal(key@, nonce_view, content@));
        assert(line_seals(line@, key_of(password@), content@)) by {
            assert(aead_open(key@, nonce_view, aead_seal(key@, nonce_view, content@))
                == Some(content@));
        }
        assert(!line@.contains('\n')) by {
            if line@.contains('\n') {
                let k = choose|k: int| 0 <= k < line@.len() && line@[k] == '\n';
                assert(is_base64_char(line@[k]));
            }
        }
    }
    Ok(line)
}

} // verus!
