//! CSV framing: a byte-level record parser and writer, and the CSV chunker.
//!
//! The dialect is the usual one: fields separated by a configurable
//! delimiter, records ended by a line feed or a carriage return plus line
//! feed, fields quoted with `"` when they hold the delimiter, a quote or a
//! line break, and quotes doubled inside quoted fields. Blank lines are
//! skipped. Malformed input (a stray quote, a byte after a closing quote
//! that neither separates nor ends, a bare carriage return, an unterminated
//! quote) is a [`CsvError`]: the stream halts, nothing is skipped silently.
//!
//! Parsing is specified as a byte-at-a-time automaton: [`csv_step`] is one
//! transition, [`csv_scan`] folds it over the input and [`csv_parse`] closes
//! the final record. The executable parser returns exactly what the
//! automaton describes.

use vstd::prelude::*;

use crate::chunk::batch_bytes;
use crate::chunk::chunks_of;
use crate::chunk::must_flush;
use crate::chunk::Chunker;

verus! {

/// The quote byte, `"`.
pub const QUOTE: u8 = 34;

/// The line-feed byte.
pub const LF: u8 = 10;

/// The carriage-return byte.
pub const CR: u8 = 13;

/// Why a CSV input was rejected.
#[derive(Clone, Copy, Debug, PartialEq, Eq, Structural)]
pub enum CsvError {
    /// A quote appeared in the middle of an unquoted field.
    UnexpectedQuote,
    /// The input ended inside a quoted field.
    UnterminatedQuote,
    /// A closing quote was followed by a byte that neither separates fields
    /// nor ends the record.
    InvalidAfterQuote,
    /// A carriage return not followed by a line feed.
    BareCarriageReturn,
    /// A data row whose field count differs from the header's.
    RaggedRow,
}

/// Where the automaton stands inside the current record.
#[derive(Clone, Copy, Debug, PartialEq, Eq, Structural)]
pub enum CsvMode {
    /// At the start of a field: nothing of it consumed yet.
    Begin,
    /// Inside an unquoted field.
    Unquoted,
    /// Inside a quoted field, after the opening quote.
    Quoted,
    /// Just after a quote inside a quoted field: either the closing quote or
    /// the first half of a doubled one.
    QuoteEnd,
    /// After a carriage return on a blank line.
    CrBlank,
    /// After a carriage return that ends a record.
    CrEnd,
}

/// The automaton's full state: finished records, finished fields of the
/// current record, bytes of the current field, mode, and the first error.
#[verifier::ext_equal]
pub struct CsvState {
    /// Records parsed so far, each a sequence of fields.
    pub records: Seq<Seq<Seq<u8>>>,
    /// Finished fields of the record being parsed.
    pub fields: Seq<Seq<u8>>,
    /// Bytes of the field being parsed.
    pub cur: Seq<u8>,
    /// Where the automaton stands.
    pub mode: CsvMode,
    /// The first error met, if any; once set, nothing else changes.
    pub error: Option<CsvError>,
}

/// The state before any byte is consumed.
pub open spec fn csv_init() -> CsvState {
    CsvState {
        records: Seq::empty(),
        fields: Seq::empty(),
        cur: Seq::empty(),
        mode: CsvMode::Begin,
        error: None,
    }
}

/// Closes the current field and stands ready for the next one.
pub open spec fn csv_push_field(st: CsvState) -> CsvState {
    CsvState {
        fields: st.fields.push(st.cur),
        cur: Seq::empty(),
        mode: CsvMode::Begin,
        ..st
    }
}

/// Closes the current field and the current record.
pub open spec fn csv_end_record(st: CsvState) -> CsvState {
    CsvState {
        records: st.records.push(st.fields.push(st.cur)),
        fields: Seq::empty(),
        cur: Seq::empty(),
        mode: CsvMode::Begin,
        ..st
    }
}

/// Records the first error; the automaton then ignores the rest.
pub open spec fn csv_fail(st: CsvState, e: CsvError) -> CsvState {
    CsvState { error: Some(e), ..st }
}

/// One transition of the automaton on byte `b`, with field delimiter `d`.
/// The delimiter is looked at first, so a degenerate configuration (a quote
/// or line break as delimiter) still has a defined meaning.
pub open spec fn csv_step(st: CsvState, b: u8, d: u8) -> CsvState {
    if st.error is Some {
        st
    } else {
        match st.mode {
            CsvMode::Begin => {
                if b == d {
                    csv_push_field(st)
                } else if b == QUOTE {
                    CsvState { mode: CsvMode::Quoted, ..st }
                } else if b == LF {
                    if st.fields.len() == 0 {
                        st  // blank line: no record
                    } else {
                        csv_end_record(st)
                    }
                } else if b == CR {
                    if st.fields.len() == 0 {
                        CsvState { mode: CsvMode::CrBlank, ..st }
                    } else {
                        CsvState { mode: CsvMode::CrEnd, ..st }
                    }
                } else {
                    CsvState { cur: st.cur.push(b), mode: CsvMode::Unquoted, ..st }
                }
            },
            CsvMode::Unquoted => {
                if b == d {
                    csv_push_field(st)
                } else if b == QUOTE {
                    csv_fail(st, CsvError::UnexpectedQuote)
                } else if b == LF {
                    csv_end_record(st)
                } else if b == CR {
                    CsvState { mode: CsvMode::CrEnd, ..st }
                } else {
                    CsvState { cur: st.cur.push(b), ..st }
                }
            },
            CsvMode::Quoted => {
                if b == QUOTE {
                    CsvState { mode: CsvMode::QuoteEnd, ..st }
                } else {
                    CsvState { cur: st.cur.push(b), ..st }
                }
            },
            CsvMode::QuoteEnd => {
                if b == d {
                    csv_push_field(st)
                } else if b == QUOTE {
                    CsvState { cur: st.cur.push(QUOTE), mode: CsvMode::Quoted, ..st }
                } else if b == LF {
                    csv_end_record(st)
                } else if b == CR {
                    CsvState { mode: CsvMode::CrEnd, ..st }
                } else {
                    csv_fail(st, CsvError::InvalidAfterQuote)
                }
            },
            CsvMode::CrBlank => {
                if b == LF {
                    CsvState { mode: CsvMode::Begin, ..st }
                } else {
                    csv_fail(st, CsvError::BareCarriageReturn)
                }
            },
            CsvMode::CrEnd => {
                if b == LF {
                    csv_end_record(st)
                } else {
                    csv_fail(st, CsvError::BareCarriageReturn)
                }
            },
        }
    }
}

/// Folds [`csv_step`] over `s`, front first.
pub open spec fn csv_scan(s: Seq<u8>, st: CsvState, d: u8) -> CsvState
    decreases s.len(),
{
    if s.len() == 0 {
        st
    } else {
        csv_scan(s.drop_first(), csv_step(st, s[0], d), d)
    }
}

/// Closes the input: a record still open at the end of the bytes is
/// finished, an automaton stopped mid-quote or after a bare carriage return
/// is an error, and a trailing blank position yields nothing.
pub open spec fn csv_finish(st: CsvState) -> Result<Seq<Seq<Seq<u8>>>, CsvError> {
    if st.error is Some {
        Err(st.error->0)
    } else {
        match st.mode {
            CsvMode::Begin => {
                if st.fields.len() == 0 {
                    Ok(st.records)
                } else {
                    Ok(csv_end_record(st).records)
                }
            },
            CsvMode::Unquoted => Ok(csv_end_record(st).records),
            CsvMode::QuoteEnd => Ok(csv_end_record(st).records),
            CsvMode::Quoted => Err(CsvError::UnterminatedQuote),
            CsvMode::CrBlank => Err(CsvError::BareCarriageReturn),
            CsvMode::CrEnd => Err(CsvError::BareCarriageReturn),
        }
    }
}

/// What parsing `s` with delimiter `d` yields: the records, each a sequence
/// of field byte strings, or the first error.
pub open spec fn csv_parse(s: Seq<u8>, d: u8) -> Result<Seq<Seq<Seq<u8>>>, CsvError> {
    csv_finish(csv_scan(s, csv_init(), d))
}

/// Once the automaton has failed, further bytes change nothing.
pub proof fn lemma_scan_error_sticky(s: Seq<u8>, st: CsvState, d: u8)
    requires
        st.error is Some,
    ensures
        csv_scan(s, st, d) == st,
    decreases s.len(),
{
    if s.len() > 0 {
        lemma_scan_error_sticky(s.drop_first(), st, d);
    }
}

/// Scanning a concatenation is scanning the parts one after the other.
pub proof fn lemma_scan_append(a: Seq<u8>, b: Seq<u8>, st: CsvState, d: u8)
    ensures
        csv_scan(a + b, st, d) == csv_scan(b, csv_scan(a, st, d), d),
    decreases a.len(),
{
    if a.len() == 0 {
        assert(a + b =~= b);
    } else {
        assert((a + b).drop_first() =~= a.drop_first() + b);
        assert((a + b)[0] == a[0]);
        lemma_scan_append(a.drop_first(), b, csv_step(st, a[0], d), d);
    }
}

/// Moves `v`'s bytes out, leaving it empty.
fn take_bytes(v: &mut Vec<u8>) -> (r: Vec<u8>)
    ensures
        r@ == old(v)@,
        final(v)@ == Seq::<u8>::empty(),
{
    let mut fresh: Vec<u8> = Vec::new();
    core::mem::swap(v, &mut fresh);
    fresh
}

/// Moves `v`'s fields out, leaving it empty.
fn take_fields(v: &mut Vec<Vec<u8>>) -> (r: Vec<Vec<u8>>)
    ensures
        r@ == old(v)@,
        final(v)@ == Seq::<Vec<u8>>::empty(),
{
    let mut fresh: Vec<Vec<u8>> = Vec::new();
    core::mem::swap(v, &mut fresh);
    fresh
}

/// Parses the whole input into records: exactly what [`csv_parse`] says,
/// both on success and on error.
pub fn parse_records(input: &Vec<u8>, d: u8) -> (r: Result<Vec<Vec<Vec<u8>>>, CsvError>)
    ensures
        match r {
            Ok(recs) => csv_parse(input@, d) == Ok::<Seq<Seq<Seq<u8>>>, CsvError>(
                recs@.map_values(|rec: Vec<Vec<u8>>| rec@.map_values(|f: Vec<u8>| f@)),
            ),
            Err(e) => csv_parse(input@, d) == Err::<Seq<Seq<Seq<u8>>>, CsvError>(e),
        },
{
    let mut records: Vec<Vec<Vec<u8>>> = Vec::new();
    let mut fields: Vec<Vec<u8>> = Vec::new();
    let mut cur: Vec<u8> = Vec::new();
    let mut mode = CsvMode::Begin;
    let mut i: usize = 0;
    proof {
        assert(input@.take(0) =~= Seq::<u8>::empty());
        assert(csv_scan(input@.take(0), csv_init(), d) =~~= (CsvState {
            records: records@.map_values(|rec: Vec<Vec<u8>>| rec@.map_values(|f: Vec<u8>| f@)),
            fields: fields@.map_values(|f: Vec<u8>| f@),
            cur: cur@,
            mode: mode,
            error: None,
        }));
    }
    while i < input.len()
        invariant
            i <= input@.len(),
            csv_scan(input@.take(i as int), csv_init(), d) == (CsvState {
                records: records@.map_values(
                    |rec: Vec<Vec<u8>>| rec@.map_values(|f: Vec<u8>| f@),
                ),
                fields: fields@.map_values(|f: Vec<u8>| f@),
                cur: cur@,
                mode: mode,
                error: None,
            }),
        decreases input@.len() - i,
    {
        let ghost st = csv_scan(input@.take(i as int), csv_init(), d);
        let b = input[i];
        proof {
            lemma_scan_append(input@.take(i as int), seq![b], csv_init(), d);
            assert(input@.take(i as int) + seq![b] =~= input@.take(i as int + 1));
            assert(seq![b].drop_first() =~= Seq::<u8>::empty());
            assert(seq![b][0] == b);
            assert(csv_scan(seq![b], st, d) == csv_scan(seq![b].drop_first(), csv_step(st, b, d), d));
            assert(csv_scan(Seq::<u8>::empty(), csv_step(st, b, d), d) == csv_step(st, b, d));
            assert(csv_scan(input@.take(i as int + 1), csv_init(), d) == csv_step(st, b, d));
        }
        let ghost next = csv_step(st, b, d);
        match mode {
            CsvMode::Begin => {
                if b == d {
                    let f = take_bytes(&mut cur);
                    fields.push(f);
                } else if b == QUOTE {
                    mode = CsvMode::Quoted;
                } else if b == LF {
                    if fields.len() == 0 {
                        // blank line
                    } else {
                        let f = take_bytes(&mut cur);
                        fields.push(f);
                        let rec = take_fields(&mut fields);
                        records.push(rec);
                    }
                } else if b == CR {
                    if fields.len() == 0 {
                        mode = CsvMode::CrBlank;
                    } else {
                        mode = CsvMode::CrEnd;
                    }
                } else {
                    cur.push(b);
                    mode = CsvMode::Unquoted;
                }
            },
            CsvMode::Unquoted => {
                if b == d {
                    let f = take_bytes(&mut cur);
                    fields.push(f);
                    mode = CsvMode::Begin;
                } else if b == QUOTE {
                    proof {
                        lemma_error_is_final(input@, i as int + 1, d, CsvError::UnexpectedQuote);
                    }
                    return Err(CsvError::UnexpectedQuote);
                } else if b == LF {
                    let f = take_bytes(&mut cur);
                    fields.push(f);
                    let rec = take_fields(&mut fields);
                    records.push(rec);
                    mode = CsvMode::Begin;
                } else if b == CR {
                    mode = CsvMode::CrEnd;
                } else {
                    cur.push(b);
                }
            },
            CsvMode::Quoted => {
                if b == QUOTE {
                    mode = CsvMode::QuoteEnd;
                } else {
                    cur.push(b);
                }
            },
            CsvMode::QuoteEnd => {
                if b == d {
                    let f = take_bytes(&mut cur);
                    fields.push(f);
                    mode = CsvMode::Begin;
                } else if b == QUOTE {
                    cur.push(QUOTE);
                    mode = CsvMode::Quoted;
                } else if b == LF {
                    let f = take_bytes(&mut cur);
                    fields.push(f);
                    let rec = take_fields(&mut fields);
                    records.push(rec);
                    mode = CsvMode::Begin;
                } else if b == CR {
                    mode = CsvMode::CrEnd;
                } else {
                    proof {
                        lemma_error_is_final(input@, i as int + 1, d, CsvError::InvalidAfterQuote);
                    }
                    return Err(CsvError::InvalidAfterQuote);
                }
            },
            CsvMode::CrBlank => {
                if b == LF {
                    mode = CsvMode::Begin;
                } else {
                    proof {
                        lemma_error_is_final(input@, i as int + 1, d, CsvError::BareCarriageReturn);
                    }
                    return Err(CsvError::BareCarriageReturn);
                }
            },
            CsvMode::CrEnd => {
                if b == LF {
                    let f = take_bytes(&mut cur);
                    fields.push(f);
                    let rec = take_fields(&mut fields);
                    records.push(rec);
                    mode = CsvMode::Begin;
                } else {
                    proof {
                        lemma_error_is_final(input@, i as int + 1, d, CsvError::BareCarriageReturn);
                    }
                    return Err(CsvError::BareCarriageReturn);
                }
            },
        }
        proof {
            assert(csv_scan(input@.take(i as int + 1), csv_init(), d) =~~= (CsvState {
                records: records@.map_values(
                    |rec: Vec<Vec<u8>>| rec@.map_values(|f: Vec<u8>| f@),
                ),
                fields: fields@.map_values(|f: Vec<u8>| f@),
                cur: cur@,
                mode: mode,
                error: None,
            }));
        }
        i = i + 1;
    }
    proof {
        assert(input@.take(input@.len() as int) =~= input@);
    }
    let ghost last = csv_scan(input@, csv_init(), d);
    match mode {
        CsvMode::Begin => {
            if fields.len() == 0 {
                proof {
                    assert(csv_parse(input@, d) == Ok::<Seq<Seq<Seq<u8>>>, CsvError>(last.records));
                }
                Ok(records)
            } else {
                let f = take_bytes(&mut cur);
                fields.push(f);
                let rec = take_fields(&mut fields);
                records.push(rec);
                proof {
                    assert(records@.map_values(
                        |rec: Vec<Vec<u8>>| rec@.map_values(|f: Vec<u8>| f@),
                    ) =~~= csv_end_record(last).records);
                }
                Ok(records)
            }
        },
        CsvMode::Unquoted => {
            let f = take_bytes(&mut cur);
            fields.push(f);
            let rec = take_fields(&mut fields);
            records.push(rec);
            proof {
                assert(records@.map_values(|rec: Vec<Vec<u8>>| rec@.map_values(|f: Vec<u8>| f@))
                    =~~= csv_end_record(last).records);
            }
            Ok(records)
        },
        CsvMode::QuoteEnd => {
            let f = take_bytes(&mut cur);
            fields.push(f);
            let rec = take_fields(&mut fields);
            records.push(rec);
            proof {
                assert(records@.map_values(|rec: Vec<Vec<u8>>| rec@.map_values(|f: Vec<u8>| f@))
                    =~~= csv_end_record(last).records);
            }
            Ok(records)
        },
        CsvMode::Quoted => Err(CsvError::UnterminatedQuote),
        CsvMode::CrBlank => Err(CsvError::BareCarriageReturn),
        CsvMode::CrEnd => Err(CsvError::BareCarriageReturn),
    }
}

/// Once the automaton has failed within the first `done` bytes, the whole
/// parse yields that error: the rest of the input cannot clear it.
proof fn lemma_error_is_final(s: Seq<u8>, done: int, d: u8, e: CsvError)
    requires
        0 <= done <= s.len(),
        csv_scan(s.take(done), csv_init(), d).error == Some(e),
    ensures
        csv_parse(s, d) == Err::<Seq<Seq<Seq<u8>>>, CsvError>(e),
{
    assert(s.take(done) + s.skip(done) =~= s);
    lemma_scan_append(s.take(done), s.skip(done), csv_init(), d);
    lemma_scan_error_sticky(s.skip(done), csv_scan(s.take(done), csv_init(), d), d);
}

/// True when the field must be quoted to survive a round trip: it holds the
/// delimiter, a quote or a line break.
pub open spec fn field_needs_quotes(f: Seq<u8>, d: u8) -> bool {
    exists|i: int| 0 <= i < f.len() && (f[i] == d || f[i] == QUOTE || f[i] == LF || f[i] == CR)
}

/// The field's bytes with every quote doubled.
pub open spec fn escaped(f: Seq<u8>) -> Seq<u8>
    decreases f.len(),
{
    if f.len() == 0 {
        Seq::empty()
    } else {
        (if f[0] == QUOTE {
            seq![QUOTE, QUOTE]
        } else {
            seq![f[0]]
        }) + escaped(f.drop_first())
    }
}

/// How one field is written: quoted with doubled quotes when it needs it,
/// bare otherwise.
pub open spec fn field_bytes(f: Seq<u8>, d: u8) -> Seq<u8> {
    if field_needs_quotes(f, d) {
        seq![QUOTE] + escaped(f) + seq![QUOTE]
    } else {
        f
    }
}

/// The fields of one record, written out and delimiter-separated.
pub open spec fn fields_joined(fields: Seq<Seq<u8>>, d: u8) -> Seq<u8>
    decreases fields.len(),
{
    if fields.len() == 0 {
        Seq::empty()
    } else if fields.len() == 1 {
        field_bytes(fields[0], d)
    } else {
        field_bytes(fields[0], d) + seq![d] + fields_joined(fields.drop_first(), d)
    }
}

/// How one record is written: its fields, delimiter-separated, ended by a
/// line feed. A record that is one empty field is written as a quoted
/// empty field, so it does not come back as a blank line.
pub open spec fn record_bytes(fields: Seq<Seq<u8>>, d: u8) -> Seq<u8> {
    if fields.len() == 1 && fields[0].len() == 0 {
        seq![QUOTE, QUOTE, LF]
    } else {
        fields_joined(fields, d) + seq![LF]
    }
}

/// Escaping one more byte appends its escaped form.
pub proof fn lemma_escaped_push(f: Seq<u8>, b: u8)
    ensures
        escaped(f.push(b)) == escaped(f) + (if b == QUOTE {
            seq![QUOTE, QUOTE]
        } else {
            seq![b]
        }),
    decreases f.len(),
{
    let tail: Seq<u8> = if b == QUOTE {
        seq![QUOTE, QUOTE]
    } else {
        seq![b]
    };
    if f.len() == 0 {
        assert(f.push(b)[0] == b);
        assert(f.push(b).drop_first() =~= Seq::<u8>::empty());
        assert(escaped(Seq::<u8>::empty()) == Seq::<u8>::empty());
        assert(escaped(f.push(b)) == tail + escaped(Seq::<u8>::empty()));
        assert(escaped(f.push(b)) =~= tail);
        assert(escaped(f) + tail =~= tail);
    } else {
        assert(f.push(b)[0] == f[0]);
        assert(f.push(b).drop_first() =~= f.drop_first().push(b));
        lemma_escaped_push(f.drop_first(), b);
        assert(escaped(f.push(b)) =~= escaped(f) + tail);
    }
}

/// Whether writing `f` requires quoting: exactly [`field_needs_quotes`].
fn needs_quotes(f: &Vec<u8>, d: u8) -> (r: bool)
    ensures
        r == field_needs_quotes(f@, d),
{
    let mut i: usize = 0;
    while i < f.len()
        invariant
            i <= f@.len(),
            forall|j: int|
                0 <= j < i ==> !(#[trigger] f@[j] == d || f@[j] == QUOTE || f@[j] == LF || f@[j]
                    == CR),
        decreases f@.len() - i,
    {
        let b = f[i];
        if b == d || b == QUOTE || b == LF || b == CR {
            return true;
        }
        i = i + 1;
    }
    false
}

/// Appends one field to `out`, exactly as [`field_bytes`] says.
fn write_field(out: &mut Vec<u8>, f: &Vec<u8>, d: u8)
    ensures
        final(out)@ == old(out)@ + field_bytes(f@, d),
{
    let ghost start = out@;
    if needs_quotes(f, d) {
        out.push(QUOTE);
        let mut j: usize = 0;
        proof {
            assert(f@.take(0) =~= Seq::<u8>::empty());
            assert(out@ =~= start + seq![QUOTE] + escaped(f@.take(0)));
        }
        while j < f.len()
            invariant
                j <= f@.len(),
                out@ == start + seq![QUOTE] + escaped(f@.take(j as int)),
            decreases f@.len() - j,
        {
            let b = f[j];
            proof {
                assert(f@.take(j as int).push(b) =~= f@.take(j as int + 1));
                lemma_escaped_push(f@.take(j as int), b);
            }
            if b == QUOTE {
                out.push(QUOTE);
                out.push(QUOTE);
                proof {
                    assert(out@ =~= start + seq![QUOTE] + escaped(f@.take(j as int + 1)));
                }
            } else {
                out.push(b);
                proof {
                    assert(out@ =~= start + seq![QUOTE] + escaped(f@.take(j as int + 1)));
                }
            }
            j = j + 1;
        }
        out.push(QUOTE);
        proof {
            assert(f@.take(f@.len() as int) =~= f@);
            assert(out@ =~= start + field_bytes(f@, d));
        }
    } else {
        out.extend_from_slice(f.as_slice());
        proof {
            assert(out@ =~= start + field_bytes(f@, d));
        }
    }
}

/// Serializes one record: its fields, delimiter-separated and quoted where
/// needed, ended by a line feed. Exactly [`record_bytes`].
pub fn write_record(fields: &Vec<Vec<u8>>, d: u8) -> (r: Vec<u8>)
    ensures
        r@ == record_bytes(fields@.map_values(|f: Vec<u8>| f@), d),
{
    let ghost all = fields@.map_values(|f: Vec<u8>| f@);
    let mut out: Vec<u8> = Vec::new();
    if fields.len() == 1 && fields[0].len() == 0 {
        out.push(QUOTE);
        out.push(QUOTE);
        out.push(LF);
        proof {
            assert(out@ =~= record_bytes(all, d));
        }
        return out;
    }
    let mut i: usize = 0;
    proof {
        assert(all.skip(0) =~= all);
        assert(out@ + fields_joined(all.skip(0), d) =~= fields_joined(all, d));
    }
    while i < fields.len()
        invariant
            i <= fields@.len(),
            all == fields@.map_values(|f: Vec<u8>| f@),
            out@ + fields_joined(all.skip(i as int), d) == fields_joined(all, d),
        decreases fields@.len() - i,
    {
        let ghost rest = all.skip(i as int);
        proof {
            assert(rest[0] == all[i as int]);
            assert(all[i as int] == fields@[i as int]@);
            assert(rest.drop_first() =~= all.skip(i as int + 1));
        }
        write_field(&mut out, &fields[i], d);
        if i + 1 < fields.len() {
            out.push(d);
            proof {
                assert(rest.len() >= 2);
                assert(fields_joined(rest, d) == field_bytes(rest[0], d) + seq![d]
                    + fields_joined(rest.drop_first(), d));
                assert(out@ + fields_joined(all.skip(i as int + 1), d) =~= fields_joined(all, d));
            }
        } else {
            proof {
                assert(rest.len() == 1);
                assert(fields_joined(rest, d) == field_bytes(rest[0], d));
                assert(all.skip(i as int + 1) =~= Seq::<Seq<u8>>::empty());
                assert(out@ + fields_joined(all.skip(i as int + 1), d) =~= fields_joined(all, d));
            }
        }
        i = i + 1;
    }
    proof {
        assert(all.skip(fields@.len() as int) =~= Seq::<Seq<u8>>::empty());
        assert(out@ =~= fields_joined(all, d));
    }
    out.push(LF);
    proof {
        assert(out@ =~= record_bytes(all, d));
    }
    out
}


/// Scanning a single byte is one automaton step.
proof fn lemma_scan_one(b: u8, st: CsvState, d: u8)
    ensures
        csv_scan(seq![b], st, d) == csv_step(st, b, d),
{
    assert(seq![b][0] == b);
    assert(seq![b].drop_first() =~= Seq::<u8>::empty());
    assert(csv_scan(seq![b], st, d) == csv_scan(seq![b].drop_first(), csv_step(st, b, d), d));
    assert(csv_scan(Seq::<u8>::empty(), csv_step(st, b, d), d) == csv_step(st, b, d));
}

/// A safe byte (not the delimiter, a quote or a line break) extends the
/// current unquoted field.
proof fn lemma_scan_unquoted(f: Seq<u8>, st: CsvState, d: u8)
    requires
        st.error is None,
        st.mode is Begin || st.mode is Unquoted,
        st.mode is Begin ==> st.cur.len() == 0,
        !field_needs_quotes(f, d),
    ensures
        csv_scan(f, st, d) == (CsvState {
            cur: st.cur + f,
            mode: if f.len() == 0 {
                st.mode
            } else {
                CsvMode::Unquoted
            },
            ..st
        }),
    decreases f.len(),
{
    if f.len() == 0 {
        assert(csv_scan(f, st, d) =~~= (CsvState { cur: st.cur + f, mode: st.mode, ..st }));
    } else {
        let b = f[0];
        assert(!(b == d || b == QUOTE || b == LF || b == CR));
        let stepped = csv_step(st, b, d);
        assert(stepped == (CsvState { cur: st.cur.push(b), mode: CsvMode::Unquoted, ..st }));
        assert(!field_needs_quotes(f.drop_first(), d)) by {
            assert(forall|i: int|
                0 <= i < f.drop_first().len() ==> f.drop_first()[i] == f[i + 1]);
        }
        lemma_scan_unquoted(f.drop_first(), stepped, d);
        assert(st.cur.push(b) + f.drop_first() =~= st.cur + f);
        assert(csv_scan(f, st, d) =~~= (CsvState { cur: st.cur + f, mode: CsvMode::Unquoted, ..st }));
    }
}

/// Escaped bytes inside quotes extend the current field by the bytes they
/// stand for.
proof fn lemma_scan_escaped(f: Seq<u8>, st: CsvState, d: u8)
    requires
        st.error is None,
        st.mode is Quoted,
        d != QUOTE,
    ensures
        csv_scan(escaped(f), st, d) == (CsvState { cur: st.cur + f, ..st }),
    decreases f.len(),
{
    if f.len() == 0 {
        assert(csv_scan(escaped(f), st, d) =~~= (CsvState { cur: st.cur + f, ..st }));
    } else {
        let b = f[0];
        let head: Seq<u8> = if b == QUOTE {
            seq![QUOTE, QUOTE]
        } else {
            seq![b]
        };
        assert(escaped(f) == head + escaped(f.drop_first()));
        lemma_scan_append(head, escaped(f.drop_first()), st, d);
        let stepped = csv_scan(head, st, d);
        if b == QUOTE {
            assert(head =~= seq![QUOTE] + seq![QUOTE]);
            lemma_scan_append(seq![QUOTE], seq![QUOTE], st, d);
            let st1 = csv_step(st, QUOTE, d);
            assert(st1 == (CsvState { mode: CsvMode::QuoteEnd, ..st }));
            let st2 = csv_step(st1, QUOTE, d);
            assert(st2 == (CsvState { cur: st.cur.push(QUOTE), mode: CsvMode::Quoted, ..st }));
            lemma_scan_one(QUOTE, st, d);
            lemma_scan_one(QUOTE, st1, d);
            assert(stepped == st2);
            lemma_scan_escaped(f.drop_first(), st2, d);
        } else {
            let st1 = csv_step(st, b, d);
            assert(st1 == (CsvState { cur: st.cur.push(b), ..st }));
            lemma_scan_one(b, st, d);
            assert(stepped == st1);
            lemma_scan_escaped(f.drop_first(), st1, d);
        }
        assert(st.cur.push(b) + f.drop_first() =~= st.cur + f);
        assert(csv_scan(escaped(f), st, d) =~~= (CsvState { cur: st.cur + f, ..st }));
    }
}

/// One written field, read from the start of a field, accumulates exactly
/// that field and stops just before the separator or terminator.
proof fn lemma_scan_field(f: Seq<u8>, st: CsvState, d: u8)
    requires
        st.error is None,
        st.mode is Begin,
        st.cur.len() == 0,
        d != QUOTE,
    ensures
        ({
            let r = csv_scan(field_bytes(f, d), st, d);
            &&& r.records == st.records
            &&& r.fields == st.fields
            &&& r.cur == f
            &&& r.error is None
            &&& (r.mode is Begin || r.mode is Unquoted || r.mode is QuoteEnd)
            &&& (r.mode is Begin ==> f.len() == 0)
        }),
{
    if field_needs_quotes(f, d) {
        assert(field_bytes(f, d) == seq![QUOTE] + (escaped(f) + seq![QUOTE])) by {
            assert(seq![QUOTE] + escaped(f) + seq![QUOTE] =~= seq![QUOTE] + (escaped(f)
                + seq![QUOTE]));
        }
        lemma_scan_append(seq![QUOTE], escaped(f) + seq![QUOTE], st, d);
        let st1 = csv_step(st, QUOTE, d);
        assert(st1 == (CsvState { mode: CsvMode::Quoted, ..st }));
        lemma_scan_one(QUOTE, st, d);
        lemma_scan_append(escaped(f), seq![QUOTE], st1, d);
        lemma_scan_escaped(f, st1, d);
        let st2 = csv_scan(escaped(f), st1, d);
        assert(st2 == (CsvState { cur: st.cur + f, mode: CsvMode::Quoted, ..st }));
        let st3 = csv_step(st2, QUOTE, d);
        assert(st3 == (CsvState { cur: st.cur + f, mode: CsvMode::QuoteEnd, ..st }));
        lemma_scan_one(QUOTE, st2, d);
        assert(st.cur + f =~= f);
    } else {
        lemma_scan_unquoted(f, st, d);
        assert(st.cur + f =~= f);
    }
}

/// The joined fields of a record walk the automaton from a fresh field,
/// closing every field but the last, which stays accumulated.
proof fn lemma_scan_joined(fields: Seq<Seq<u8>>, st: CsvState, d: u8)
    requires
        fields.len() >= 1,
        st.error is None,
        st.mode is Begin,
        st.cur.len() == 0,
        d != QUOTE && d != LF && d != CR,
    ensures
        ({
            let r = csv_scan(fields_joined(fields, d), st, d);
            &&& r.records == st.records
            &&& r.fields == st.fields + fields.drop_last()
            &&& r.cur == fields.last()
            &&& r.error is None
            &&& (r.mode is Begin || r.mode is Unquoted || r.mode is QuoteEnd)
            &&& (r.mode is Begin ==> fields.last().len() == 0)
        }),
    decreases fields.len(),
{
    if fields.len() == 1 {
        lemma_scan_field(fields[0], st, d);
        assert(st.fields + fields.drop_last() =~= st.fields);
    } else {
        let f0 = fields[0];
        assert(fields_joined(fields, d) == field_bytes(f0, d) + (seq![d] + fields_joined(
            fields.drop_first(),
            d,
        ))) by {
            assert(field_bytes(f0, d) + seq![d] + fields_joined(fields.drop_first(), d)
                =~= field_bytes(f0, d) + (seq![d] + fields_joined(fields.drop_first(), d)));
        }
        lemma_scan_append(field_bytes(f0, d), seq![d] + fields_joined(fields.drop_first(), d), st, d);
        lemma_scan_field(f0, st, d);
        let st1 = csv_scan(field_bytes(f0, d), st, d);
        lemma_scan_append(seq![d], fields_joined(fields.drop_first(), d), st1, d);
        let st2 = csv_step(st1, d, d);
        assert(st2 == csv_push_field(st1));
        lemma_scan_one(d, st1, d);
        assert(st2.mode is Begin && st2.cur.len() == 0 && st2.error is None);
        assert(st2.fields == st.fields.push(f0));
        lemma_scan_joined(fields.drop_first(), st2, d);
        assert(st.fields.push(f0) + fields.drop_first().drop_last() =~= st.fields
            + fields.drop_last());
        assert(fields.drop_first().last() == fields.last());
        assert(csv_scan(fields_joined(fields, d), st, d) == csv_scan(
            fields_joined(fields.drop_first(), d),
            st2,
            d,
        ));
    }
}

/// One whole written record, read from a fresh record position, is parsed
/// back as exactly that record.
proof fn lemma_scan_record(rec: Seq<Seq<u8>>, st: CsvState, d: u8)
    requires
        rec.len() >= 1,
        st.error is None,
        st.mode is Begin,
        st.cur.len() == 0,
        st.fields.len() == 0,
        d != QUOTE && d != LF && d != CR,
    ensures
        csv_scan(record_bytes(rec, d), st, d) == (CsvState {
            records: st.records.push(rec),
            fields: Seq::empty(),
            cur: Seq::empty(),
            mode: CsvMode::Begin,
            error: None,
        }),
{
    if rec.len() == 1 && rec[0].len() == 0 {
        let bytes = seq![QUOTE, QUOTE, LF];
        assert(record_bytes(rec, d) == bytes);
        let st1 = csv_step(st, QUOTE, d);
        assert(st1 == (CsvState { mode: CsvMode::Quoted, ..st }));
        let st2 = csv_step(st1, QUOTE, d);
        assert(st2 == (CsvState { mode: CsvMode::QuoteEnd, ..st }));
        let st3 = csv_step(st2, LF, d);
        assert(st3 == csv_end_record(st2));
        assert(bytes =~= seq![QUOTE] + (seq![QUOTE] + seq![LF]));
        assert(seq![QUOTE] + seq![LF] =~= seq![QUOTE].add(seq![LF]));
        lemma_scan_append(seq![QUOTE], seq![QUOTE] + seq![LF], st, d);
        lemma_scan_append(seq![QUOTE], seq![LF], st1, d);
        lemma_scan_one(QUOTE, st, d);
        lemma_scan_one(QUOTE, st1, d);
        lemma_scan_one(LF, st2, d);
        assert(csv_scan(bytes, st, d) == st3);
        assert(st.fields.push(st.cur) =~~= rec);
        assert(csv_scan(record_bytes(rec, d), st, d) =~~= (CsvState {
            records: st.records.push(rec),
            fields: Seq::empty(),
            cur: Seq::empty(),
            mode: CsvMode::Begin,
            error: None,
        }));
    } else {
        assert(record_bytes(rec, d) == fields_joined(rec, d) + seq![LF]);
        lemma_scan_append(fields_joined(rec, d), seq![LF], st, d);
        lemma_scan_joined(rec, st, d);
        let st1 = csv_scan(fields_joined(rec, d), st, d);
        let st2 = csv_step(st1, LF, d);
        lemma_scan_one(LF, st1, d);
        if st1.mode is Begin {
            assert(rec.last().len() == 0);
            assert(rec.len() >= 2);
            assert(st1.fields.len() == rec.len() - 1 >= 1);
            assert(st2 == csv_end_record(st1));
        } else {
            assert(st2 == csv_end_record(st1));
        }
        assert(st.fields + rec.drop_last() =~= rec.drop_last());
        assert(rec.drop_last().push(rec.last()) =~= rec);
        assert(csv_scan(record_bytes(rec, d), st, d) =~~= (CsvState {
            records: st.records.push(rec),
            fields: Seq::empty(),
            cur: Seq::empty(),
            mode: CsvMode::Begin,
            error: None,
        }));
    }
}

/// A whole input written from records: each record's line, one after the
/// other.
pub open spec fn records_bytes(records: Seq<Seq<Seq<u8>>>, d: u8) -> Seq<u8> {
    records.map_values(|r: Seq<Seq<u8>>| record_bytes(r, d)).flatten()
}

/// Written records, read from a fresh record position, all come back.
proof fn lemma_scan_records(records: Seq<Seq<Seq<u8>>>, st: CsvState, d: u8)
    requires
        st.error is None,
        st.mode is Begin,
        st.cur.len() == 0,
        st.fields.len() == 0,
        forall|i: int| 0 <= i < records.len() ==> #[trigger] records[i].len() >= 1,
        d != QUOTE && d != LF && d != CR,
    ensures
        csv_scan(records_bytes(records, d), st, d) == (CsvState {
            records: st.records + records,
            fields: Seq::empty(),
            cur: Seq::empty(),
            mode: CsvMode::Begin,
            error: None,
        }),
    decreases records.len(),
{
    let written = records.map_values(|r: Seq<Seq<u8>>| record_bytes(r, d));
    if records.len() == 0 {
        assert(written.flatten() =~= Seq::<u8>::empty());
        assert(csv_scan(records_bytes(records, d), st, d) =~~= (CsvState {
            records: st.records + records,
            fields: Seq::empty(),
            cur: Seq::empty(),
            mode: CsvMode::Begin,
            error: None,
        }));
    } else {
        assert(written.first() == record_bytes(records[0], d));
        assert(written.drop_first() =~= records.drop_first().map_values(
            |r: Seq<Seq<u8>>| record_bytes(r, d),
        ));
        assert(records_bytes(records, d) == record_bytes(records[0], d) + records_bytes(
            records.drop_first(),
            d,
        ));
        lemma_scan_append(
            record_bytes(records[0], d),
            records_bytes(records.drop_first(), d),
            st,
            d,
        );
        lemma_scan_record(records[0], st, d);
        let st1 = csv_scan(record_bytes(records[0], d), st, d);
        lemma_scan_records(records.drop_first(), st1, d);
        assert(st.records.push(records[0]) + records.drop_first() =~= st.records + records);
        assert(csv_scan(records_bytes(records, d), st, d) =~~= (CsvState {
            records: st.records + records,
            fields: Seq::empty(),
            cur: Seq::empty(),
            mode: CsvMode::Begin,
            error: None,
        }));
    }
}

/// Law: writing any records — every byte value in the fields allowed —
/// and parsing the written bytes with the same (sane) delimiter gives the
/// records back, exactly and in order: serialization loses nothing.
pub proof fn lemma_write_parse_roundtrip(records: Seq<Seq<Seq<u8>>>, d: u8)
    requires
        forall|i: int| 0 <= i < records.len() ==> #[trigger] records[i].len() >= 1,
        d != QUOTE && d != LF && d != CR,
    ensures
        csv_parse(records_bytes(records, d), d) == Ok::<Seq<Seq<Seq<u8>>>, CsvError>(records),
{
    lemma_scan_records(records, csv_init(), d);
    assert(Seq::<Seq<Seq<u8>>>::empty() + records =~= records);
}

/// The serialized data rows of a parsed CSV input: every record but the
/// header, written back out with delimiter `d`.
pub open spec fn csv_data_rows(records: Seq<Seq<Seq<u8>>>, d: u8) -> Seq<Seq<u8>> {
    records.drop_first().map_values(|r: Seq<Seq<u8>>| record_bytes(r, d))
}

/// True when some data row's field count differs from the header's.
pub open spec fn csv_ragged(records: Seq<Seq<Seq<u8>>>) -> bool {
    exists|i: int| 1 <= i < records.len() && #[trigger] records[i].len() != records[0].len()
}

/// What chunking a whole CSV input yields: the first parse error if there is
/// one; a ragged-row error if a data row's field count differs from the
/// header's and tolerance is off; otherwise the batches of [`chunks_of`]
/// over the re-serialized data rows, each prefixed with the header line.
/// An input without records yields no batch.
pub open spec fn csv_chunks_spec(input: Seq<u8>, d: u8, size: int, flexible: bool) -> Result<
    Seq<Seq<u8>>,
    CsvError,
> {
    match csv_parse(input, d) {
        Err(e) => Err(e),
        Ok(records) => {
            if records.len() == 0 {
                Ok(Seq::empty())
            } else if !flexible && csv_ragged(records) {
                Err(CsvError::RaggedRow)
            } else {
                let header = record_bytes(records[0], d);
                Ok(
                    chunks_of(csv_data_rows(records, d), header.len() as int, size).map_values(
                        |g: Seq<Seq<u8>>| batch_bytes(header, g),
                    ),
                )
            }
        },
    }
}

/// Splits a whole CSV input into batches: parses it, treats the first
/// record as the header, and groups the re-serialized data rows under the
/// byte threshold, every batch seeded with the header line. Exactly
/// [`csv_chunks_spec`], error cases included. Batches already chunked are
/// not returned when a later row is malformed: the error is the whole
/// result, as a fatal parse error aborts the run.
pub fn chunk_csv(input: &Vec<u8>, size: usize, d: u8, flexible: bool) -> (r: Result<
    Vec<Vec<u8>>,
    CsvError,
>)
    ensures
        match r {
            Ok(batches) => csv_chunks_spec(input@, d, size as int, flexible) == Ok::<
                Seq<Seq<u8>>,
                CsvError,
            >(batches@.map_values(|b: Vec<u8>| b@)),
            Err(e) => csv_chunks_spec(input@, d, size as int, flexible) == Err::<
                Seq<Seq<u8>>,
                CsvError,
            >(e),
        },
{
    let recs = match parse_records(input, d) {
        Ok(recs) => recs,
        Err(e) => {
            return Err(e);
        },
    };
    let ghost rec_views = recs@.map_values(|rec: Vec<Vec<u8>>| rec@.map_values(|f: Vec<u8>| f@));
    if recs.len() == 0 {
        let batches: Vec<Vec<u8>> = Vec::new();
        proof {
            assert(batches@.map_values(|b: Vec<u8>| b@) =~= Seq::<Seq<u8>>::empty());
        }
        return Ok(batches);
    }
    let header_count = recs[0].len();
    let header = write_record(&recs[0], d);
    let ghost header_view = header@;
    let mut rows: Vec<Vec<u8>> = Vec::new();
    let mut i: usize = 1;
    while i < recs.len()
        invariant
            1 <= i <= recs@.len(),
            rec_views == recs@.map_values(
                |rec: Vec<Vec<u8>>| rec@.map_values(|f: Vec<u8>| f@),
            ),
            csv_parse(input@, d) == Ok::<Seq<Seq<Seq<u8>>>, CsvError>(rec_views),
            header_count == rec_views[0].len(),
            flexible || forall|k: int|
                1 <= k < i ==> #[trigger] rec_views[k].len() == rec_views[0].len(),
            rows@.len() == i - 1,
            forall|k: int|
                0 <= k < i - 1 ==> #[trigger] rows@[k]@ == record_bytes(rec_views[k + 1], d),
        decreases recs@.len() - i,
    {
        if !flexible && recs[i].len() != header_count {
            proof {
                assert(rec_views[i as int].len() != rec_views[0].len());
                assert(csv_ragged(rec_views));
            }
            return Err(CsvError::RaggedRow);
        }
        let row = write_record(&recs[i], d);
        rows.push(row);
        i = i + 1;
    }
    proof {
        if !flexible {
            assert(!csv_ragged(rec_views));
        }
        assert(rows@.map_values(|v: Vec<u8>| v@) =~= csv_data_rows(rec_views, d));
        assert(header_view == record_bytes(rec_views[0], d));
    }
    let batches = crate::chunk::chunk_all(header, &rows, size);
    proof {
        assert(batches@.map_values(|b: Vec<u8>| b@) == chunks_of(
            csv_data_rows(rec_views, d),
            header_view.len() as int,
            size as int,
        ).map_values(|g: Seq<Seq<u8>>| batch_bytes(header_view, g)));
    }
    Ok(batches)
}

/// Streams CSV rows into byte-bounded batches: every batch starts with the
/// header line, rows are never split, and a row whose field count differs
/// from the header's is refused unless tolerance was asked for.
pub struct CsvChunker {
    core: Chunker,
    delimiter: u8,
    flexible: bool,
    header_count: usize,
}

impl CsvChunker {
    /// The serialized header line that seeds every batch.
    pub closed spec fn header_bytes_spec(&self) -> Seq<u8> {
        self.core.prefix_spec()
    }

    /// The serialized data rows currently buffered.
    pub closed spec fn rows_spec(&self) -> Seq<Seq<u8>> {
        self.core.rows_spec()
    }

    /// The configured byte threshold.
    pub closed spec fn threshold_spec(&self) -> int {
        self.core.threshold_spec()
    }

    /// The configured field delimiter.
    pub closed spec fn delim_spec(&self) -> u8 {
        self.delimiter
    }

    /// Whether rows with a differing field count are tolerated.
    pub closed spec fn flexible_spec(&self) -> bool {
        self.flexible
    }

    /// The header's field count, which every row must match unless
    /// tolerance is on.
    pub closed spec fn header_count_spec(&self) -> int {
        self.header_count as int
    }

    /// The underlying buffer is consistent.
    pub closed spec fn wf(&self) -> bool {
        self.core.wf()
    }

    /// A chunker for rows under the given header, threshold and delimiter.
    /// The buffer starts holding just the serialized header line.
    pub fn new(header: &Vec<Vec<u8>>, size: usize, delimiter: u8, flexible: bool) -> (r:
        CsvChunker)
        ensures
            r.wf(),
            r.header_bytes_spec() == record_bytes(
                header@.map_values(|f: Vec<u8>| f@),
                delimiter,
            ),
            r.rows_spec() == Seq::<Seq<u8>>::empty(),
            r.threshold_spec() == size as int,
            r.delim_spec() == delimiter,
            r.flexible_spec() == flexible,
            r.header_count_spec() == header@.len(),
    {
        let header_line = write_record(header, delimiter);
        let core = Chunker::new(header_line, size);
        CsvChunker { core, delimiter, flexible, header_count: header.len() }
    }

    /// Hands the chunker the next row. A row with the wrong field count is
    /// refused (and nothing changes) when tolerance is off; otherwise the
    /// row is serialized and buffered whole, after the current batch is
    /// emitted if the row would push it to the threshold.
    pub fn push_row(&mut self, row: &Vec<Vec<u8>>) -> (r: Result<Option<Vec<u8>>, CsvError>)
        requires
            old(self).wf(),
        ensures
            final(self).wf(),
            final(self).header_bytes_spec() == old(self).header_bytes_spec(),
            final(self).threshold_spec() == old(self).threshold_spec(),
            final(self).delim_spec() == old(self).delim_spec(),
            final(self).flexible_spec() == old(self).flexible_spec(),
            final(self).header_count_spec() == old(self).header_count_spec(),
            ({
                let rb = record_bytes(row@.map_values(|f: Vec<u8>| f@), old(self).delim_spec());
                if !old(self).flexible_spec() && row@.len() != old(self).header_count_spec() {
                    &&& r matches Err(e) && e == CsvError::RaggedRow
                    &&& final(self).rows_spec() == old(self).rows_spec()
                } else if must_flush(
                    old(self).rows_spec(),
                    rb,
                    old(self).header_bytes_spec().len() as int,
                    old(self).threshold_spec(),
                ) {
                    &&& r matches Ok(opt) && opt matches Some(batch) && batch@ == batch_bytes(
                        old(self).header_bytes_spec(),
                        old(self).rows_spec(),
                    )
                    &&& final(self).rows_spec() == seq![rb]
                } else {
                    &&& r matches Ok(opt) && opt is None
                    &&& final(self).rows_spec() == old(self).rows_spec().push(rb)
                }
            }),
    {
        if !self.flexible && row.len() != self.header_count {
            return Err(CsvError::RaggedRow);
        }
        let rb = write_record(row, self.delimiter);
        Ok(self.core.push(&rb))
    }

    /// Closes the stream: returns the remaining batch if any row is
    /// buffered, `None` if the buffer holds only the header.
    pub fn finish(&mut self) -> (r: Option<Vec<u8>>)
        requires
            old(self).wf(),
        ensures
            final(self).wf(),
            final(self).header_bytes_spec() == old(self).header_bytes_spec(),
            final(self).threshold_spec() == old(self).threshold_spec(),
            final(self).delim_spec() == old(self).delim_spec(),
            final(self).flexible_spec() == old(self).flexible_spec(),
            final(self).header_count_spec() == old(self).header_count_spec(),
            final(self).rows_spec() == Seq::<Seq<u8>>::empty(),
            if old(self).rows_spec().len() >= 1 {
                r matches Some(batch) && batch@ == batch_bytes(
                    old(self).header_bytes_spec(),
                    old(self).rows_spec(),
                )
            } else {
                r is None
            },
    {
        self.core.finish()
    }
}


/// Law: for a parsed CSV input, concatenating the record groups of every
/// batch, in batch order, reproduces the serialized data rows in their
/// original order — no duplication, no omission, no record split — and
/// every batch holds at least one data row, so none is header-only.
pub proof fn lemma_csv_batches_preserve_rows(records: Seq<Seq<Seq<u8>>>, d: u8, size: int)
    requires
        records.len() >= 1,
    ensures
        ({
            let header = record_bytes(records[0], d);
            let rows = csv_data_rows(records, d);
            let batches = chunks_of(rows, header.len() as int, size);
            batches.flatten() =~= rows && forall|i: int|
                0 <= i < batches.len() ==> #[trigger] batches[i].len() >= 1
        }),
{
    let header = record_bytes(records[0], d);
    let rows = csv_data_rows(records, d);
    crate::chunk::lemma_chunks_preserve_rows(rows, header.len() as int, size);
    crate::chunk::lemma_chunks_nonempty(rows, header.len() as int, size);
}

} // verus!
