//! The exchange format: rendering decoded entries as a human-readable
//! export blob, and parsing such a blob back for import with ID-based
//! deduplication against the store.

use vstd::prelude::*;
use crate::codec::{decode_line, decode_line_spec, serial, DecodedLine, LineOutcome};
use crate::crypto::{derive_key, key_of};
use crate::entry::{summary_of, Entry, EntryModel};
use crate::store::{
    decode_lines, encode_entry_line, load_entries, sealed_entry_line, StoreError,
};
use crate::text::{
    chars_of, contains_char, dec_str, find_char, lemma_dec_str_digits, lemma_dec_val_of_dec_str,
    lemma_find_char, lemma_find_sub_single, lemma_split_on_char_concat, lemma_split_on_nonempty,
    lemma_trim_digits, parse_u32_chars, parse_u32_or_zero, split_on, split_on_chars, string_of,
    strip_prefix_chars, trim_chars, trim_spec, u32_digits,
};
use vstd::string::StringExecFns;

verus! {

/// The separator line between exported blocks.
pub open spec fn sep_seq() -> Seq<char> {
    "---\n"@
}

/// One exported block: four labeled lines, the content text, a blank line.
pub open spec fn render_block(e: EntryModel) -> Seq<char> {
    "ID:"@ + e.id + "\ntimestamp:"@ + e.timestamp + "\nword_count:"@ + dec_str(
        e.word_count as int,
    ) + "\ncontent:\n"@ + e.content + "\n\n"@
}

/// The whole export blob: blocks joined by the separator line.
pub open spec fn render_blob(entries: Seq<EntryModel>) -> Seq<char>
    decreases entries.len(),
{
    if entries.len() == 0 {
        Seq::empty()
    } else if entries.len() == 1 {
        render_block(entries[0])
    } else {
        render_block(entries[0]) + sep_seq() + render_blob(entries.drop_first())
    }
}

/// Growing a blob one entry at a time agrees with `render_blob`.
proof fn lemma_render_blob_snoc(s: Seq<EntryModel>, e: EntryModel)
    ensures
        render_blob(s.push(e)) == if s.len() == 0 {
            render_block(e)
        } else {
            render_blob(s) + sep_seq() + render_block(e)
        },
    decreases s.len(),
{
    let grown = s.push(e);
    if s.len() == 0 {
        assert(grown[0] == e);
    } else if s.len() == 1 {
        assert(grown[0] == s[0]);
        assert(grown.drop_first() =~= seq![e]);
        assert(render_blob(seq![e]) == render_block(e));
    } else {
        assert(grown[0] == s[0]);
        assert(grown.drop_first() =~= s.drop_first().push(e));
        lemma_render_blob_snoc(s.drop_first(), e);
        assert(render_block(s[0]) + sep_seq() + (render_blob(s.drop_first()) + sep_seq()
            + render_block(e)) =~= (render_block(s[0]) + sep_seq() + render_blob(s.drop_first()))
            + sep_seq() + render_block(e));
    }
}

/// Append one rendered block to the blob being built.
fn append_block(blob: &mut String, e: &Entry)
    ensures
        final (blob)@ == old(blob)@ + render_block(e@),
{
    blob.append("ID:");
    blob.append(e.id.as_str());
    blob.append("\ntimestamp:");
    blob.append(e.timestamp.as_str());
    blob.append("\nword_count:");
    let wc = string_of(u32_digits(e.word_count).as_slice());
    blob.append(wc.as_str());
    blob.append("\ncontent:\n");
    blob.append(e.content.as_str());
    blob.append("\n\n");
    assert(blob@ =~= old(blob)@ + render_block(e@));
}

/// Render the whole store as an export blob.  Unlike a read, an export of a
/// store whose backing file does not exist fails with `NotFound`; and as in
/// a read, the first malformed or unauthentic record aborts the export.
pub fn export_text(file: Option<&Vec<String>>, password: &str) -> (r: Result<String, StoreError>)
    ensures
        file is None ==> r == Err::<String, StoreError>(StoreError::NotFound),
        file matches Some(lines) ==> ({
            let d = decode_lines(lines@.map_values(|l: String| l@), key_of(password@));
            match r {
                Ok(blob) => d matches Ok(es) && blob@ == render_blob(es),
                Err(err) => d == Err::<Seq<EntryModel>, StoreError>(err),
            }
        }),
{
    let lines = match file {
        None => {
            return Err(StoreError::NotFound);
        },
        Some(lines) => lines,
    };
    let entries = match load_entries(lines, password) {
        Ok(es) => es,
        Err(err) => {
            return Err(err);
        },
    };
    let ghost models = entries@.map_values(|e: Entry| e@);
    let mut blob = String::new();
    let n = entries.len();
    let mut i: usize = 0;
    while i < n
        invariant
            0 <= i <= n == entries@.len(),
            models == entries@.map_values(|e: Entry| e@),
            blob@ == render_blob(models.take(i as int)),
        decreases n - i,
    {
        if i > 0 {
            blob.append("---\n");
        }
        append_block(&mut blob, &entries[i]);
        proof {
            lemma_render_blob_snoc(models.take(i as int), models[i as int]);
            assert(models.take(i as int).push(models[i as int]) =~= models.take(i as int + 1));
        }
        i = i + 1;
    }
    proof {
        assert(models.take(n as int) =~= models);
    }
    Ok(blob)
}

/// The lines of a text: split at every newline, a trailing final newline
/// yielding no extra empty line.  Unlike the standard line iterator, a
/// carriage return before a newline is kept; the labeled header fields lose
/// it again to trimming, only a content line can retain one.
pub open spec fn lines_of(b: Seq<char>) -> Seq<Seq<char>> {
    if b.len() == 0 {
        Seq::empty()
    } else {
        let ps = split_on(b, "\n"@);
        if ps.len() > 0 && ps.last().len() == 0 {
            ps.drop_last()
        } else {
            ps
        }
    }
}

/// Lines joined back with single newlines.
pub open spec fn join_nl(ss: Seq<Seq<char>>) -> Seq<char>
    decreases ss.len(),
{
    if ss.len() == 0 {
        Seq::empty()
    } else if ss.len() == 1 {
        ss[0]
    } else {
        ss[0] + "\n"@ + join_nl(ss.drop_first())
    }
}

/// Growing a joined text one line at a time agrees with `join_nl`.
proof fn lemma_join_nl_snoc(s: Seq<Seq<char>>, x: Seq<char>)
    ensures
        join_nl(s.push(x)) == if s.len() == 0 {
            x
        } else {
            join_nl(s) + "\n"@ + x
        },
    decreases s.len(),
{
    let grown = s.push(x);
    if s.len() == 0 {
        assert(grown[0] == x);
        assert(join_nl(grown) == grown[0]);
    } else if s.len() == 1 {
        assert(grown[0] == s[0]);
        assert(grown.drop_first() =~= seq![x]);
        assert(join_nl(seq![x]) == seq![x][0]);
        assert(join_nl(grown) == grown[0] + "\n"@ + join_nl(grown.drop_first()));
        assert(join_nl(s) == s[0]);
    } else {
        assert(grown[0] == s[0]);
        assert(grown.drop_first() =~= s.drop_first().push(x));
        lemma_join_nl_snoc(s.drop_first(), x);
        assert(s[0] + "\n"@ + (join_nl(s.drop_first()) + "\n"@ + x) =~= (s[0] + "\n"@ + join_nl(
            s.drop_first(),
        )) + "\n"@ + x);
    }
}

/// Joining the newline-split parts of a text gives the text back.
proof fn lemma_join_nl_split(x: Seq<char>)
    ensures
        join_nl(split_on(x, "\n"@)) == x,
    decreases x.len(),
{
    reveal_strlit("\n");
    let nl = "\n"@;
    assert(nl =~= seq!['\n']);
    lemma_find_sub_single(x, '\n');
    lemma_find_char(x, '\n');
    match find_char(x, '\n') {
        None => {
            assert(split_on(x, nl) == seq![x]);
            assert(join_nl(seq![x]) == x);
        },
        Some(i) => {
            let rest = x.skip(i + 1);
            assert(split_on(x, nl) == seq![x.take(i)] + split_on(rest, nl));
            lemma_split_on_nonempty(rest, nl);
            lemma_join_nl_split(rest);
            let parts = seq![x.take(i)] + split_on(rest, nl);
            assert(parts.len() >= 2);
            assert(parts[0] == x.take(i));
            assert(parts.drop_first() =~= split_on(rest, nl));
            assert(join_nl(parts) == x.take(i) + nl + join_nl(split_on(rest, nl)));
            assert(x.take(i) + nl + rest =~= x);
        },
    }
}

/// A piece of a rendered block holds no newline, so it splits to itself.
proof fn lemma_split_single_line(l: Seq<char>)
    requires
        !l.contains('\n'),
    ensures
        split_on(l, "\n"@) == seq![l],
{
    reveal_strlit("\n");
    assert("\n"@ =~= seq!['\n']);
    lemma_find_sub_single(l, '\n');
    lemma_find_char(l, '\n');
    match find_char(l, '\n') {
        None => {},
        Some(i) => {
            assert(l.contains('\n')) by {
                assert(0 <= i < l.len() && l[i] == '\n');
            }
        },
    }
}

/// Parsing a rendered block recovers the entry, except that the blank line
/// before the separator joins into the content as one trailing newline:
/// the exchange format's one deviation from a perfect round trip.  The
/// requires keep the header fields on their lines and outside the reach of
/// trimming; an identifier the store itself assigns satisfies them all.
pub proof fn lemma_parse_render_block(e: EntryModel)
    requires
        !e.id.contains('\n'),
        !e.timestamp.contains('\n'),
        trim_spec(e.id) == e.id,
        trim_spec(e.timestamp) == e.timestamp,
    ensures
        parse_block(render_block(e)) == (EntryModel {
            id: e.id,
            timestamp: e.timestamp,
            word_count: e.word_count,
            content: e.content + seq!['\n'],
        }),
{
    reveal_strlit("\n");
    reveal_strlit("\n\n");
    reveal_strlit("ID:");
    reveal_strlit("timestamp:");
    reveal_strlit("\ntimestamp:");
    reveal_strlit("word_count:");
    reveal_strlit("\nword_count:");
    reveal_strlit("content:");
    reveal_strlit("\ncontent:\n");
    let nl = "\n"@;
    assert(nl =~= seq!['\n']);
    let d = dec_str(e.word_count as int);
    lemma_dec_str_digits(e.word_count as int);
    lemma_dec_val_of_dec_str(e.word_count as int);
    let l0 = "ID:"@ + e.id;
    let l1 = "timestamp:"@ + e.timestamp;
    let l2 = "word_count:"@ + d;
    let l3 = "content:"@;
    let empty = Seq::<char>::empty();
    let b = render_block(e);

    // none of the header lines holds a newline
    assert(!l0.contains('\n')) by {
        if l0.contains('\n') {
            let k = choose|k: int| 0 <= k < l0.len() && l0[k] == '\n';
            if k >= 3 {
                assert(e.id.contains('\n')) by {
                    assert(0 <= k - 3 < e.id.len() && e.id[k - 3] == '\n');
                }
            }
        }
    }
    assert(!l1.contains('\n')) by {
        if l1.contains('\n') {
            let k = choose|k: int| 0 <= k < l1.len() && l1[k] == '\n';
            if k >= 10 {
                assert(e.timestamp.contains('\n')) by {
                    assert(0 <= k - 10 < e.timestamp.len() && e.timestamp[k - 10] == '\n');
                }
            }
        }
    }
    assert(!l2.contains('\n')) by {
        if l2.contains('\n') {
            let k = choose|k: int| 0 <= k < l2.len() && l2[k] == '\n';
            if k >= 11 {
                assert(crate::text::is_dec_digit(d[k - 11]));
            }
        }
    }
    assert(!l3.contains('\n')) by {
        if l3.contains('\n') {
            let k = choose|k: int| 0 <= k < l3.len() && l3[k] == '\n';
        }
    }
    assert(!empty.contains('\n'));

    // split the block line by line
    let rest1 = l1 + seq!['\n'] + (l2 + seq!['\n'] + (l3 + seq!['\n'] + (e.content + seq!['\n']
        + seq!['\n'])));
    assert(b =~= l0 + seq!['\n'] + rest1);
    lemma_split_on_char_concat(l0, rest1, '\n');
    let rest2 = l2 + seq!['\n'] + (l3 + seq!['\n'] + (e.content + seq!['\n'] + seq!['\n']));
    lemma_split_on_char_concat(l1, rest2, '\n');
    let rest3 = l3 + seq!['\n'] + (e.content + seq!['\n'] + seq!['\n']);
    lemma_split_on_char_concat(l2, rest3, '\n');
    let rest4 = e.content + seq!['\n'] + seq!['\n'];
    lemma_split_on_char_concat(l3, rest4, '\n');
    assert(seq!['\n'] =~= empty + seq!['\n'] + empty);
    lemma_split_on_char_concat(e.content, seq!['\n'], '\n');
    lemma_split_on_char_concat(empty, empty, '\n');
    lemma_split_single_line(l0);
    lemma_split_single_line(l1);
    lemma_split_single_line(l2);
    lemma_split_single_line(l3);
    lemma_split_single_line(empty);
    assert(split_on(seq!['\n'], nl) == seq![empty] + seq![empty]);
    let cs = split_on(e.content, nl);
    lemma_split_on_nonempty(e.content, nl);
    let ps = split_on(b, nl);
    assert(ps =~= seq![l0, l1, l2, l3] + cs + seq![empty, empty]);

    // the trailing empty part is dropped
    assert(b.len() > 0);
    assert(ps.last() == empty);
    let ls = lines_of(b);
    assert(ls =~= seq![l0, l1, l2, l3] + cs + seq![empty]);
    assert(ls.len() > 4);
    assert(ls[0] == l0 && ls[1] == l1 && ls[2] == l2);

    // the three labeled headers give the fields back
    assert("ID:"@.len() == 3 && "timestamp:"@.len() == 10 && "word_count:"@.len() == 11);
    assert(l0.take(3) =~= "ID:"@ && l0.skip(3) =~= e.id);
    assert(l1.take(10) =~= "timestamp:"@ && l1.skip(10) =~= e.timestamp);
    assert(l2.take(11) =~= "word_count:"@ && l2.skip(11) =~= d);
    lemma_trim_digits(d);
    assert(header_field(ls, 0, "ID:"@) == e.id);
    assert(header_field(ls, 1, "timestamp:"@) == e.timestamp);
    assert(header_field(ls, 2, "word_count:"@) == d);
    assert(parse_u32_or_zero(d) == e.word_count);

    // the content lines join back with the blank line as a trailing newline
    assert(ls.skip(4) =~= cs.push(empty));
    lemma_join_nl_snoc(cs, empty);
    lemma_join_nl_split(e.content);
    assert(join_nl(ls.skip(4)) =~= e.content + seq!['\n']);
}

/// The summary view survives one export-and-parse round trip untouched: the
/// timestamp and word count come back exactly, and the trailing newline the
/// format adds lives in the content, which summaries withhold.
pub proof fn lemma_summary_survives_round_trip(e: EntryModel)
    requires
        !e.id.contains('\n'),
        !e.timestamp.contains('\n'),
        trim_spec(e.id) == e.id,
        trim_spec(e.timestamp) == e.timestamp,
    ensures
        summary_of(parse_block(render_block(e))) == summary_of(e),
{
    lemma_parse_render_block(e);
}

/// `text` nowhere holds the block separator.
pub open spec fn sep_free(text: Seq<char>) -> bool {
    forall|j: int| !crate::text::match_at(text, sep_seq(), j)
}

/// Splitting at the separator distributes over joining one separator-free
/// block to the front.
#[verifier::rlimit(50)]
proof fn lemma_split_on_sep_concat(a: Seq<char>, b: Seq<char>)
    requires
        sep_free(a),
    ensures
        split_on(a + sep_seq() + b, sep_seq()) == seq![a] + split_on(b, sep_seq()),
{
    reveal_strlit("---\n");
    let sep = sep_seq();
    assert(sep =~= seq!['-', '-', '-', '\n']);
    let s = a + sep + b;
    crate::text::lemma_find_sub(s, sep);
    assert(crate::text::match_at(s, sep, a.len() as int)) by {
        assert(s.subrange(a.len() as int, a.len() as int + 4) =~= sep);
    }
    assert forall|j: int| 0 <= j < a.len() implies !crate::text::match_at(s, sep, j) by {
        if crate::text::match_at(s, sep, j) {
            if j + 4 <= a.len() {
                assert(crate::text::match_at(a, sep, j)) by {
                    assert(a.subrange(j, j + 4) =~= s.subrange(j, j + 4));
                }
            } else {
                // the occurrence would straddle into the separator's dashes
                assert(s.subrange(j, j + 4)[3] == s[j + 3]);
                assert(a.len() <= j + 3 < a.len() + 3);
                assert(s[j + 3] == sep[j + 3 - a.len()]);
                assert(s[j + 3] == '-');
                assert(sep[3] == '\n');
            }
        }
    }
    match crate::text::find_sub(s, sep) {
        Some(i) => {
            if i < a.len() {
                assert(!crate::text::match_at(s, sep, i));
            } else if i > a.len() {
                assert(!crate::text::match_at(s, sep, a.len() as int));
            }
            assert(i == a.len());
            assert(s.take(i) =~= a);
            assert(s.skip(i + 4) =~= b);
            assert(split_on(s, sep) == seq![a] + split_on(b, sep));
        },
        None => {
            assert(!crate::text::match_at(s, sep, a.len() as int));
        },
    }
}

/// When every block is free of the separator, the export blob splits back
/// into exactly its blocks.
pub proof fn lemma_split_render_blob(es: Seq<EntryModel>)
    requires
        es.len() >= 1,
        forall|k: int| 0 <= k < es.len() ==> sep_free(render_block(#[trigger] es[k])),
    ensures
        split_on(render_blob(es), sep_seq()) == es.map_values(|e: EntryModel| render_block(e)),
    decreases es.len(),
{
    reveal_strlit("---\n");
    let sep = sep_seq();
    let f = |e: EntryModel| render_block(e);
    if es.len() == 1 {
        let block = render_block(es[0]);
        assert(render_blob(es) == block);
        crate::text::lemma_find_sub(block, sep);
        match crate::text::find_sub(block, sep) {
            Some(i) => {
                assert(!crate::text::match_at(block, sep, i));
            },
            None => {},
        }
        assert(split_on(block, sep) == seq![block]);
        assert(es.map_values(f) =~= seq![block]);
    } else {
        let rest = es.drop_first();
        assert(render_blob(es) == render_block(es[0]) + sep + render_blob(rest));
        lemma_split_on_sep_concat(render_block(es[0]), render_blob(rest));
        assert forall|k: int| 0 <= k < rest.len() implies sep_free(
            render_block(#[trigger] rest[k]),
        ) by {
            assert(rest[k] == es[k + 1]);
        }
        lemma_split_render_blob(rest);
        assert(seq![render_block(es[0])] + rest.map_values(f) =~= es.map_values(f));
    }
}

/// The conditions under which an exported entry imports cleanly: its block
/// is separator-free, its header fields sit on single lines untouched by
/// trimming, and its identifier is usable.  An entry the store itself
/// created meets all but the separator condition, which only a content
/// with a line of dashes can break.
pub open spec fn exportable(e: EntryModel) -> bool {
    &&& sep_free(render_block(e))
    &&& !e.id.contains('\n')
    &&& !e.timestamp.contains('\n')
    &&& trim_spec(e.id) == e.id
    &&& trim_spec(e.timestamp) == e.timestamp
    &&& e.id.len() > 0
    &&& e.wf()
}

/// An entry as it returns from one export-import cycle: the same fields,
/// the content carrying the format's trailing newline.
pub open spec fn reimported(e: EntryModel) -> EntryModel {
    EntryModel {
        id: e.id,
        timestamp: e.timestamp,
        word_count: e.word_count,
        content: e.content + seq!['\n'],
    }
}

/// Importing a store's own export plans exactly the exported entries,
/// re-read through the format, when every entry is exportable, no
/// identifier is already taken, and no two collide.
pub proof fn lemma_import_plan_of_export(existing: Seq<Seq<char>>, es: Seq<EntryModel>)
    requires
        es.len() >= 1,
        forall|k: int| 0 <= k < es.len() ==> exportable(#[trigger] es[k]),
        forall|k: int| 0 <= k < es.len() ==> !existing.contains((#[trigger] es[k]).id),
        forall|k1: int, k2: int|
            0 <= k1 < k2 < es.len() ==> (#[trigger] es[k1]).id != (#[trigger] es[k2]).id,
    ensures
        import_plan(existing, split_on(render_blob(es), sep_seq())) == es.map_values(
            |e: EntryModel| reimported(e),
        ),
    decreases es.len(),
{
    let reim = |e: EntryModel| reimported(e);
    lemma_split_render_blob(es);
    let blocks = es.map_values(|e: EntryModel| render_block(e));
    let e0 = es[0];
    lemma_parse_render_block(e0);
    assert(blocks[0] == render_block(e0));
    let p0 = reimported(e0);
    assert(parse_block(blocks[0]) == p0);
    assert(p0.id.len() > 0 && !existing.contains(p0.id) && p0.wf());
    let rest = es.drop_first();
    assert(blocks.drop_first() =~= rest.map_values(|e: EntryModel| render_block(e)));
    if es.len() == 1 {
        assert(blocks.drop_first().len() == 0);
        assert(import_plan(existing.push(p0.id), blocks.drop_first())
            == Seq::<EntryModel>::empty());
        assert(import_plan(existing, blocks) == seq![p0] + Seq::<EntryModel>::empty());
        assert(seq![p0] + Seq::<EntryModel>::empty() =~= es.map_values(reim));
    } else {
        let grown = existing.push(e0.id);
        assert forall|k: int| 0 <= k < rest.len() implies exportable(#[trigger] rest[k]) by {
            assert(rest[k] == es[k + 1]);
        }
        assert forall|k: int| 0 <= k < rest.len() implies !grown.contains(
            (#[trigger] rest[k]).id,
        ) by {
            assert(rest[k] == es[k + 1]);
            if grown.contains(es[k + 1].id) {
                let j = choose|j: int| 0 <= j < grown.len() && grown[j] == es[k + 1].id;
                if j < existing.len() {
                    assert(existing.contains(es[k + 1].id)) by {
                        assert(existing[j] == es[k + 1].id);
                    }
                } else {
                    assert(es[0].id == es[k + 1].id);
                }
            }
        }
        assert forall|k1: int, k2: int| 0 <= k1 < k2 < rest.len() implies (
        #[trigger] rest[k1]).id != (#[trigger] rest[k2]).id by {
            assert(rest[k1] == es[k1 + 1] && rest[k2] == es[k2 + 1]);
        }
        lemma_import_plan_of_export(grown, rest);
        lemma_split_render_blob(rest);
        assert(import_plan(existing, blocks) == seq![p0] + rest.map_values(reim));
        assert(seq![p0] + rest.map_values(reim) =~= es.map_values(reim));
    }
}

/// Import re-keying, read back: the lines that import a store's export
/// into an empty store under another password read back, under that
/// password, as exactly the exported entries — and so their summaries are
/// the original entries' summaries, the format's trailing newline living
/// in the content that summaries withhold.
pub proof fn lemma_import_rekeys_readable(
    es: Seq<EntryModel>,
    new_lines: Seq<Seq<char>>,
    import_key: Seq<u8>,
)
    requires
        es.len() >= 1,
        forall|k: int| 0 <= k < es.len() ==> exportable(#[trigger] es[k]),
        forall|k1: int, k2: int|
            0 <= k1 < k2 < es.len() ==> (#[trigger] es[k1]).id != (#[trigger] es[k2]).id,
        ({
            let plan = import_plan(
                Seq::<Seq<char>>::empty(),
                split_on(render_blob(es), sep_seq()),
            );
            &&& new_lines.len() == plan.len()
            &&& forall|i: int|
                0 <= i < plan.len() ==> sealed_entry_line(
                    #[trigger] new_lines[i],
                    import_key,
                    plan[i],
                )
        }),
    ensures
        decode_lines(new_lines, import_key) == Ok::<_, StoreError>(
            es.map_values(|e: EntryModel| reimported(e)),
        ),
        es.map_values(|e: EntryModel| reimported(e)).map_values(|m: EntryModel| summary_of(m))
            == es.map_values(|e: EntryModel| summary_of(e)),
{
    let reim = |e: EntryModel| reimported(e);
    assert forall|k: int| 0 <= k < es.len() implies !Seq::<Seq<char>>::empty().contains(
        (#[trigger] es[k]).id,
    ) by {}
    lemma_import_plan_of_export(Seq::<Seq<char>>::empty(), es);
    let plan = import_plan(Seq::<Seq<char>>::empty(), split_on(render_blob(es), sep_seq()));
    assert(plan == es.map_values(reim));
    assert(decode_lines(Seq::<Seq<char>>::empty(), import_key) == Ok::<_, StoreError>(
        Seq::<EntryModel>::empty(),
    ));
    crate::store::lemma_append_many_accumulates(
        Seq::<Seq<char>>::empty(),
        new_lines,
        import_key,
        Seq::<EntryModel>::empty(),
        plan,
    );
    assert(Seq::<Seq<char>>::empty() + new_lines =~= new_lines);
    assert(Seq::<EntryModel>::empty() + plan =~= plan);
    assert(es.map_values(reim).map_values(|m: EntryModel| summary_of(m)) =~= es.map_values(
        |e: EntryModel| summary_of(e),
    ));
}

/// A labeled header line's value: the line at `i` with `label` stripped and
/// the rest trimmed; empty when the line is missing or not so labeled.
pub open spec fn header_field(ls: Seq<Seq<char>>, i: int, label: Seq<char>) -> Seq<char> {
    if 0 <= i < ls.len() {
        let line = ls[i];
        if line.len() >= label.len() && line.take(label.len() as int) == label {
            trim_spec(line.skip(label.len() as int))
        } else {
            Seq::empty()
        }
    } else {
        Seq::empty()
    }
}

/// Parse one exported block back into an entry: three labeled header lines,
/// one label line for the content, then the content itself.
pub open spec fn parse_block(b: Seq<char>) -> EntryModel {
    let ls = lines_of(b);
    EntryModel {
        id: header_field(ls, 0, "ID:"@),
        timestamp: header_field(ls, 1, "timestamp:"@),
        word_count: parse_u32_or_zero(header_field(ls, 2, "word_count:"@)),
        content: if ls.len() > 4 {
            join_nl(ls.skip(4))
        } else {
            Seq::empty()
        },
    }
}

/// Split a text into its lines, executably.
fn lines_of_chars(b: &[char]) -> (r: Vec<Vec<char>>)
    ensures
        r@.map_values(|p: Vec<char>| p@) == lines_of(b@),
{
    if b.len() == 0 {
        let r: Vec<Vec<char>> = Vec::new();
        assert(r@.map_values(|p: Vec<char>| p@) =~= lines_of(b@));
        return r;
    }
    let nl = chars_of("\n");
    proof {
        reveal_strlit("\n");
    }
    let mut ps = split_on_chars(b, nl.as_slice());
    let ghost full = ps@.map_values(|p: Vec<char>| p@);
    if ps.len() > 0 && ps[ps.len() - 1].len() == 0 {
        proof {
            assert(full.last() == ps@[ps@.len() - 1]@);
        }
        let _ = ps.pop();
        proof {
            assert(ps@.map_values(|p: Vec<char>| p@) =~= full.drop_last());
        }
    }
    ps
}

/// Read one labeled header line, executably.
fn header_field_chars(ls: &Vec<Vec<char>>, i: usize, label: &str) -> (r: String)
    ensures
        r@ == header_field(ls@.map_values(|p: Vec<char>| p@), i as int, label@),
{
    if i >= ls.len() {
        return String::new();
    }
    let lab = chars_of(label);
    match strip_prefix_chars(ls[i].as_slice(), lab.as_slice()) {
        Some(rest) => string_of(trim_chars(rest.as_slice()).as_slice()),
        None => String::new(),
    }
}

/// Parse one exported block, executably.
pub fn parse_block_chars(b: &[char]) -> (e: Entry)
    ensures
        e@ == parse_block(b@),
{
    let ls = lines_of_chars(b);
    let ghost lsv = ls@.map_values(|p: Vec<char>| p@);
    let id = header_field_chars(&ls, 0, "ID:");
    let timestamp = header_field_chars(&ls, 1, "timestamp:");
    let wc_text = header_field_chars(&ls, 2, "word_count:");
    let word_count = match parse_u32_chars(chars_of(wc_text.as_str()).as_slice()) {
        Some(n) => n,
        None => 0u32,
    };
    let n = ls.len();
    let mut content_chars: Vec<char> = Vec::new();
    let mut k: usize = 4;
    if n > 4 {
        proof {
            assert(lsv.skip(4).take(0) =~= Seq::<Seq<char>>::empty());
        }
        while k < n
            invariant
                4 <= k <= n == ls@.len(),
                n > 4,
                lsv == ls@.map_values(|p: Vec<char>| p@),
                content_chars@ == join_nl(lsv.skip(4).take(k - 4)),
            decreases n - k,
        {
            if k > 4 {
                content_chars.push('\n');
                proof {
                    reveal_strlit("\n");
                }
            }
            let mut part = crate::text::copy_range(
                ls[k].as_slice(),
                0,
                ls[k].len(),
            );
            proof {
                assert(part@ =~= lsv[k as int]);
            }
            content_chars.append(&mut part);
            proof {
                lemma_join_nl_snoc(lsv.skip(4).take(k - 4), lsv[k as int]);
                assert(lsv.skip(4).take(k - 4).push(lsv[k as int]) =~= lsv.skip(4).take(
                    k - 4 + 1,
                ));
                if k > 4 {
                    assert(content_chars@ =~= join_nl(lsv.skip(4).take(k - 4)) + "\n"@
                        + lsv[k as int]);
                } else {
                    assert(content_chars@ =~= lsv[k as int]);
                }
            }
            k = k + 1;
        }
        proof {
            assert(lsv.skip(4).take(n - 4) =~= lsv.skip(4));
        }
    }
    let content = string_of(content_chars.as_slice());
    Entry { id, timestamp, word_count, content }
}

/// The identifiers of the records an existing file yields under a key, in
/// file order.  The scan is lenient: a line that fails to decode for any
/// reason contributes nothing.
pub open spec fn known_ids(lines: Seq<Seq<char>>, key: Seq<u8>) -> Seq<Seq<char>>
    decreases lines.len(),
{
    if lines.len() == 0 {
        Seq::empty()
    } else {
        let rest = known_ids(lines.drop_last(), key);
        match decode_line_spec(lines.last(), key) {
            LineOutcome::Found(e) => rest.push(e.id),
            _ => rest,
        }
    }
}

/// The entries an import adds, in blob order: a parsed block is taken
/// unless its identifier is blank or already accounted for — by the store
/// or by an earlier block of the same blob — or a field of it would break
/// the record layout.
pub open spec fn import_plan(existing: Seq<Seq<char>>, blocks: Seq<Seq<char>>) -> Seq<EntryModel>
    decreases blocks.len(),
{
    if blocks.len() == 0 {
        Seq::empty()
    } else {
        let e = parse_block(blocks[0]);
        let rest = blocks.drop_first();
        if e.id.len() == 0 || existing.contains(e.id) || !e.wf() {
            import_plan(existing, rest)
        } else {
            seq![e] + import_plan(existing.push(e.id), rest)
        }
    }
}

/// The identifiers of a sequence of entries.
pub open spec fn ids_of(entries: Seq<EntryModel>) -> Seq<Seq<char>> {
    entries.map_values(|e: EntryModel| e.id)
}

/// Import idempotence: when every identifier a blob parses to is already
/// present (blank ones aside), the import adds nothing.
pub proof fn lemma_import_idempotent(existing: Seq<Seq<char>>, blocks: Seq<Seq<char>>)
    requires
        forall|i: int|
            0 <= i < blocks.len() ==> {
                let e = parse_block(#[trigger] blocks[i]);
                e.id.len() == 0 || existing.contains(e.id) || !e.wf()
            },
    ensures
        import_plan(existing, blocks) == Seq::<EntryModel>::empty(),
    decreases blocks.len(),
{
    if blocks.len() > 0 {
        let e0 = parse_block(blocks[0]);
        assert(e0.id.len() == 0 || existing.contains(e0.id) || !e0.wf());
        let rest = blocks.drop_first();
        assert forall|i: int| 0 <= i < rest.len() implies {
            let e = parse_block(#[trigger] rest[i]);
            e.id.len() == 0 || existing.contains(e.id) || !e.wf()
        } by {
            assert(rest[i] == blocks[i + 1]);
        }
        lemma_import_idempotent(existing, rest);
    }
}

/// After one import, every identifier a blob parses to is accounted for:
/// blank or ill-formed, already present, or among the identifiers the
/// import added.
pub proof fn lemma_plan_covers(existing: Seq<Seq<char>>, blocks: Seq<Seq<char>>)
    ensures
        forall|i: int|
            0 <= i < blocks.len() ==> {
                let e = parse_block(#[trigger] blocks[i]);
                e.id.len() == 0 || !e.wf() || existing.contains(e.id) || ids_of(
                    import_plan(existing, blocks),
                ).contains(e.id)
            },
    decreases blocks.len(),
{
    if blocks.len() > 0 {
        let e0 = parse_block(blocks[0]);
        let rest = blocks.drop_first();
        let plan = import_plan(existing, blocks);
        if e0.id.len() == 0 || existing.contains(e0.id) || !e0.wf() {
            lemma_plan_covers(existing, rest);
            assert forall|i: int| 0 <= i < blocks.len() implies {
                let e = parse_block(#[trigger] blocks[i]);
                e.id.len() == 0 || !e.wf() || existing.contains(e.id) || ids_of(plan).contains(
                    e.id,
                )
            } by {
                if i > 0 {
                    assert(blocks[i] == rest[i - 1]);
                }
            }
        } else {
            let grown = existing.push(e0.id);
            let plan_rest = import_plan(grown, rest);
            lemma_plan_covers(grown, rest);
            assert(plan == seq![e0] + plan_rest);
            assert(ids_of(plan) =~= seq![e0.id] + ids_of(plan_rest));
            assert(ids_of(plan)[0] == e0.id);
            assert(ids_of(plan).contains(e0.id));
            assert forall|i: int| 0 <= i < blocks.len() implies {
                let e = parse_block(#[trigger] blocks[i]);
                e.id.len() == 0 || !e.wf() || existing.contains(e.id) || ids_of(plan).contains(
                    e.id,
                )
            } by {
                if i > 0 {
                    assert(blocks[i] == rest[i - 1]);
                    let e = parse_block(blocks[i]);
                    if !(e.id.len() == 0 || !e.wf()) {
                        if grown.contains(e.id) {
                            if !existing.contains(e.id) {
                                let k = choose|k: int|
                                    0 <= k < grown.len() && grown[k] == e.id;
                                assert(e.id == e0.id);
                                assert(ids_of(plan).contains(e.id));
                            }
                        } else if ids_of(plan_rest).contains(e.id) {
                            let k = choose|k: int|
                                0 <= k < ids_of(plan_rest).len() && ids_of(plan_rest)[k] == e.id;
                            assert(ids_of(plan)[k + 1] == e.id);
                            assert(ids_of(plan).contains(e.id));
                        }
                    }
                }
            }
        }
    }
}

/// After appending lines that decode to `added`, the identifier scan sees
/// the old identifiers followed by those of `added`.
pub proof fn lemma_known_ids_after_append(
    lines: Seq<Seq<char>>,
    new_lines: Seq<Seq<char>>,
    key: Seq<u8>,
    added: Seq<EntryModel>,
)
    requires
        added.len() == new_lines.len(),
        forall|i: int|
            0 <= i < new_lines.len() ==> decode_line_spec(#[trigger] new_lines[i], key)
                == LineOutcome::Found(added[i]),
    ensures
        known_ids(lines + new_lines, key) == known_ids(lines, key) + ids_of(added),
    decreases new_lines.len(),
{
    if new_lines.len() == 0 {
        assert(lines + new_lines =~= lines);
        assert(known_ids(lines, key) + ids_of(added) =~= known_ids(lines, key));
    } else {
        let whole = lines + new_lines;
        assert(whole.drop_last() =~= lines + new_lines.drop_last());
        assert(whole.last() == new_lines.last());
        assert(decode_line_spec(new_lines.last(), key) == LineOutcome::Found(added.last()));
        lemma_known_ids_after_append(lines, new_lines.drop_last(), key, added.drop_last());
        assert(known_ids(lines, key) + ids_of(added) =~= (known_ids(lines, key) + ids_of(
            added.drop_last(),
        )).push(added.last().id)) by {
            assert(ids_of(added)[added.len() - 1] == added.last().id);
        }
    }
}

/// Import idempotence, end to end: when a store's file grows by exactly the
/// lines a first import of a blob produced, a second import of the same
/// blob under the same passwords adds nothing.
pub proof fn lemma_second_import_adds_nothing(
    lines: Seq<Seq<char>>,
    new_lines: Seq<Seq<char>>,
    key: Seq<u8>,
    blob: Seq<char>,
)
    requires
        ({
            let plan = import_plan(known_ids(lines, key), split_on(blob, sep_seq()));
            &&& new_lines.len() == plan.len()
            &&& forall|i: int|
                0 <= i < plan.len() ==> decode_line_spec(#[trigger] new_lines[i], key)
                    == LineOutcome::Found(plan[i])
        }),
    ensures
        import_plan(known_ids(lines + new_lines, key), split_on(blob, sep_seq()))
            == Seq::<EntryModel>::empty(),
{
    let existing0 = known_ids(lines, key);
    let blocks = split_on(blob, sep_seq());
    let plan = import_plan(existing0, blocks);
    lemma_known_ids_after_append(lines, new_lines, key, plan);
    let existing1 = existing0 + ids_of(plan);
    lemma_plan_covers(existing0, blocks);
    assert forall|i: int| 0 <= i < blocks.len() implies {
        let e = parse_block(#[trigger] blocks[i]);
        e.id.len() == 0 || existing1.contains(e.id) || !e.wf()
    } by {
        let e = parse_block(blocks[i]);
        if e.id.len() != 0 && e.wf() {
            if existing0.contains(e.id) {
                let k = choose|k: int| 0 <= k < existing0.len() && existing0[k] == e.id;
                assert(existing1[k] == e.id);
            } else {
                assert(ids_of(plan).contains(e.id));
                let k = choose|k: int| 0 <= k < ids_of(plan).len() && ids_of(plan)[k] == e.id;
                assert(existing1[existing0.len() + k] == e.id);
            }
        }
    }
    lemma_import_idempotent(existing1, blocks);
}

/// The backing file's lines, or none when the file does not exist.
pub open spec fn file_lines(file: Option<&Vec<String>>) -> Seq<Seq<char>> {
    match file {
        None => Seq::empty(),
        Some(ls) => ls@.map_values(|l: String| l@),
    }
}

/// Whether a vector of strings holds one reading `s`.
fn contains_string(v: &Vec<String>, s: &String) -> (r: bool)
    ensures
        r == v@.map_values(|x: String| x@).contains(s@),
{
    let n = v.len();
    let mut i: usize = 0;
    while i < n
        invariant
            0 <= i <= n == v@.len(),
            forall|j: int| 0 <= j < i ==> v@[j]@ != s@,
        decreases n - i,
    {
        if v[i].eq(s) {
            assert(v@.map_values(|x: String| x@)[i as int] == s@);
            return true;
        }
        i = i + 1;
    }
    proof {
        let m = v@.map_values(|x: String| x@);
        if m.contains(s@) {
            let k = choose|k: int| 0 <= k < m.len() && m[k] == s@;
            assert(v@[k]@ == s@);
        }
    }
    false
}

/// Scan the backing file for the identifiers already present, using the
/// store's own password.  The scan is lenient: lines that fail to decode
/// are passed over.
fn scan_ids(lines: &Vec<String>, key: &Vec<u8>) -> (r: Vec<String>)
    requires
        key@.len() == 32,
    ensures
        r@.map_values(|x: String| x@) == known_ids(
            lines@.map_values(|l: String| l@),
            key@,
        ),
{
    let ghost s = lines@.map_values(|l: String| l@);
    let mut ids: Vec<String> = Vec::new();
    let n = lines.len();
    let mut i: usize = 0;
    proof {
        assert(s.take(0) =~= Seq::<Seq<char>>::empty());
        assert(ids@.map_values(|x: String| x@) =~= known_ids(s.take(0), key@));
    }
    while i < n
        invariant
            0 <= i <= n == lines@.len(),
            key@.len() == 32,
            s == lines@.map_values(|l: String| l@),
            ids@.map_values(|x: String| x@) == known_ids(s.take(i as int), key@),
        decreases n - i,
    {
        proof {
            assert(s.take(i as int + 1).drop_last() =~= s.take(i as int));
            assert(s.take(i as int + 1).last() == s[i as int]);
        }
        match decode_line(lines[i].as_str(), key) {
            DecodedLine::Found(e) => {
                let ghost before = ids@.map_values(|x: String| x@);
                ids.push(e.id);
                assert(ids@.map_values(|x: String| x@) =~= before.push(e@.id));
            },
            DecodedLine::SkippedShort => {},
            DecodedLine::Malformed => {},
            DecodedLine::Unreadable => {},
        }
        i = i + 1;
    }
    proof {
        assert(s.take(n as int) =~= s);
    }
    ids
}

/// Import an export blob into the store.
///
/// Existing identifiers are scanned under the store's own password; each
/// parsed block whose identifier is new and usable is re-encrypted under
/// `import_password` — import re-keys what it adds — and becomes one new
/// line to append, in blob order.  Blank or duplicate entries are passed
/// over silently, merge semantics, not replace; so is a block whose id or
/// timestamp holds the field delimiter, one step beyond the blank-or-
/// duplicate rule, since such an entry could not be stored without
/// corrupting the record layout.  An import that accepts no block draws no
/// randomness and always succeeds.  On failure nothing is handed back, and
/// a caller appends either every returned line or none: a failed import
/// leaves the store untouched.
pub fn import_entries(
    file: Option<&Vec<String>>,
    store_password: &str,
    import_password: &str,
    blob: &str,
) -> (r: Result<Vec<String>, StoreError>)
    ensures
        match r {
            Ok(new_lines) => ({
                let plan = import_plan(
                    known_ids(file_lines(file), key_of(store_password@)),
                    split_on(blob@, sep_seq()),
                );
                &&& new_lines@.len() == plan.len()
                &&& forall|i: int|
                    0 <= i < plan.len() ==> sealed_entry_line(
                        #[trigger] new_lines@[i]@,
                        key_of(import_password@),
                        plan[i],
                    )
            }),
            Err(err) => ({
                let plan = import_plan(
                    known_ids(file_lines(file), key_of(store_password@)),
                    split_on(blob@, sep_seq()),
                );
                &&& (err == StoreError::RandomnessFailure || err == StoreError::DataTooLong)
                &&& plan.len() > 0
                &&& (err == StoreError::DataTooLong ==> exists|i: int|
                    0 <= i < plan.len() && serial(#[trigger] plan[i]).len() > 0x4_0000_0000)
            }),
        },
{
    let store_key = derive_key(store_password);
    let mut ids: Vec<String> = match file {
        None => Vec::new(),
        Some(lines) => scan_ids(lines, &store_key),
    };
    proof {
        assert(ids@.map_values(|x: String| x@) =~= known_ids(
            file_lines(file),
            key_of(store_password@),
        ));
    }
    let ghost existing0 = known_ids(file_lines(file), key_of(store_password@));
    let blob_chars = chars_of(blob);
    let sep = chars_of("---\n");
    proof {
        reveal_strlit("---\n");
    }
    let blocks = split_on_chars(blob_chars.as_slice(), sep.as_slice());
    let ghost blocksv = split_on(blob@, sep_seq());
    proof {
        assert(blocks@.map_values(|p: Vec<char>| p@) == blocksv);
    }
    let ghost plan = import_plan(existing0, blocksv);
    let mut out: Vec<String> = Vec::new();
    let n = blocks.len();
    let mut k: usize = 0;
    proof {
        assert(blocksv.skip(0) =~= blocksv);
        assert(ids@.map_values(|x: String| x@) =~= existing0 + ids_of(plan.take(0)));
        assert(plan.skip(0) =~= plan);
    }
    while k < n
        invariant
            0 <= k <= n == blocks@.len(),
            blocksv == blocks@.map_values(|p: Vec<char>| p@),
            existing0 == known_ids(file_lines(file), key_of(store_password@)),
            blocksv == split_on(blob@, sep_seq()),
            plan == import_plan(existing0, blocksv),
            out@.len() <= plan.len(),
            ids@.map_values(|x: String| x@) == existing0 + ids_of(
                plan.take(out@.len() as int),
            ),
            import_plan(ids@.map_values(|x: String| x@), blocksv.skip(k as int)) == plan.skip(
                out@.len() as int,
            ),
            forall|j: int|
                0 <= j < out@.len() ==> sealed_entry_line(
                    #[trigger] out@[j]@,
                    key_of(import_password@),
                    plan[j],
                ),
        decreases n - k,
    {
        let ghost idsv = ids@.map_values(|x: String| x@);
        let ghost done = out@.len() as int;
        proof {
            let suffix = blocksv.skip(k as int);
            assert(suffix[0] == blocksv[k as int]);
            assert(suffix.drop_first() =~= blocksv.skip(k as int + 1));
        }
        let entry = parse_block_chars(blocks[k].as_slice());
        assert(entry@ == parse_block(blocksv[k as int]));
        let id_chars = chars_of(entry.id.as_str());
        let ts_chars = chars_of(entry.timestamp.as_str());
        let blank = entry.id.as_str().is_empty();
        let dup = contains_string(&ids, &entry.id);
        let ill = contains_char(id_chars.as_slice(), '|') || contains_char(
            ts_chars.as_slice(),
            '|',
        );
        if blank || dup || ill {
            proof {
                assert(import_plan(idsv, blocksv.skip(k as int)) == import_plan(
                    idsv,
                    blocksv.skip(k as int + 1),
                ));
            }
        } else {
            assert(entry@.wf());
            proof {
                assert(plan.skip(done) == seq![entry@] + import_plan(
                    idsv.push(entry@.id),
                    blocksv.skip(k as int + 1),
                ));
                assert(plan.skip(done).len() > 0);
                assert(plan[done] == plan.skip(done)[0]);
                assert(plan[done] == entry@);
                assert(plan.skip(done).drop_first() =~= plan.skip(done + 1));
                assert(import_plan(idsv.push(entry@.id), blocksv.skip(k as int + 1))
                    =~= plan.skip(done + 1));
                assert(ids_of(plan.take(done + 1)) =~= ids_of(plan.take(done)).push(
                    plan[done].id,
                ));
                assert(idsv.push(entry@.id) =~= existing0 + ids_of(plan.take(done + 1)));
            }
            let line = match encode_entry_line(&entry, import_password) {
                Ok(line) => line,
                Err(err) => {
                    proof {
                        assert(plan.len() > 0);
                        if err == StoreError::DataTooLong {
                            assert(0 <= done < plan.len() && serial(plan[done]).len()
                                > 0x4_0000_0000);
                        }
                    }
                    return Err(err);
                },
            };
            let ghost out_before = out@;
            out.push(line);
            ids.push(entry.id);
            proof {
                assert(ids@.map_values(|x: String| x@) =~= idsv.push(entry@.id));
                assert(out@.len() as int == done + 1);
                assert(out@[done] == line);
            }
        }
        k = k + 1;
    }
    proof {
        assert(blocksv.skip(n as int) =~= Seq::<Seq<char>>::empty());
        assert(import_plan(
            ids@.map_values(|x: String| x@),
            Seq::<Seq<char>>::empty(),
        ) == Seq::<EntryModel>::empty());
        assert(plan.skip(out@.len() as int).len() == 0);
        assert(out@.len() == plan.len());
    }
    Ok(out)
}

} // verus!
