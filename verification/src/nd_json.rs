//! NDJSON framing: one JSON object per line, chunked into byte-bounded
//! batches with no prefix.
//!
//! Parsing and serializing the objects themselves is serde_json's work,
//! taken on trust behind three small wrappers; their results are named by
//! uninterpreted functions ([`json_object_of`], [`json_bytes_of`],
//! [`map_without`]), since each is a function of its arguments alone: the
//! map is ordered by key, so its compact serialization does not depend on
//! how it was built. Everything around the calls — line splitting, the
//! optional per-record field stripping strategy, and the
//! accumulate-or-flush policy — is verified.

use vstd::prelude::*;

use crate::chunk::batch_bytes;
use crate::chunk::chunks_of;
use crate::chunk::must_flush;
use crate::chunk::Chunker;
use crate::csv::LF;

verus! {

/// Declares serde_json's map type so its values can flow through verified
/// signatures; the values stay opaque.
#[verifier::external_type_specification]
#[verifier::external_body]
#[verifier::reject_recursive_types(K)]
#[verifier::reject_recursive_types(V)]
pub struct ExJsonMap<K, V>(serde_json::Map<K, V>);

/// Declares serde_json's value type, opaque as well.
#[verifier::external_type_specification]
#[verifier::external_body]
pub struct ExJsonValue(serde_json::Value);

/// Why an NDJSON input was rejected.
#[derive(Clone, Copy, Debug, PartialEq, Eq, Structural)]
pub enum JsonError {
    /// A line that is not a well-formed JSON object.
    Invalid,
}

/// The object that parsing these bytes yields, if they are a well-formed
/// JSON object; parsing is deterministic, so this is a function of the
/// bytes.
pub uninterp spec fn json_object_of(s: Seq<u8>) -> Option<
    serde_json::Map<String, serde_json::Value>,
>;

/// The compact serialization of an object; the map is ordered by key, so
/// this is a function of the map value alone.
pub uninterp spec fn json_bytes_of(m: serde_json::Map<String, serde_json::Value>) -> Seq<u8>;

/// The map with the entry under `key` removed, if it was there.
pub uninterp spec fn map_without(
    m: serde_json::Map<String, serde_json::Value>,
    key: Seq<char>,
) -> serde_json::Map<String, serde_json::Value>;

/// Relies on serde_json::from_slice: whether the bytes parse as a JSON
/// object, and to which object, depends on the bytes alone.
#[verifier::external_body]
fn parse_json_object(line: &Vec<u8>) -> (r: Result<
    serde_json::Map<String, serde_json::Value>,
    JsonError,
>)
    ensures
        r matches Ok(m) ==> json_object_of(line@) == Some(m),
        r matches Err(e) ==> json_object_of(line@) is None && e == JsonError::Invalid,
{
    match serde_json::from_slice::<serde_json::Map<String, serde_json::Value>>(line.as_slice()) {
        Ok(m) => Ok(m),
        Err(_) => Err(JsonError::Invalid),
    }
}

/// Relies on serde_json::Map::remove: removing a key leaves a map that is a
/// function of the old map and the key.
#[verifier::external_body]
fn remove_field(m: &mut serde_json::Map<String, serde_json::Value>, key: &str)
    ensures
        *final(m) == map_without(*old(m), key@),
{
    m.remove(key);
}

/// Relies on serde_json::to_vec: compact serialization is a function of the
/// key-ordered map alone, and cannot fail for a map with string keys and
/// plain JSON values.
#[verifier::external_body]
fn json_to_vec(m: &serde_json::Map<String, serde_json::Value>) -> (r: Vec<u8>)
    ensures
        r@ == json_bytes_of(*m),
{
    serde_json::to_vec(m).unwrap()
}

/// The view of an optional strip key.
pub open spec fn strip_view(strip: Option<String>) -> Option<Seq<char>> {
    match strip {
        Some(k) => Some(k@),
        None => None,
    }
}

/// The bytes an object contributes to a batch: its compact serialization,
/// after the configured field, if any, is stripped.
pub open spec fn transformed_bytes(
    m: serde_json::Map<String, serde_json::Value>,
    strip: Option<Seq<char>>,
) -> Seq<u8> {
    match strip {
        Some(k) => json_bytes_of(map_without(m, k)),
        None => json_bytes_of(m),
    }
}

/// One step of line splitting: a line feed closes the current line (blank
/// lines vanish), any other byte extends it.
pub open spec fn split_step(acc: (Seq<Seq<u8>>, Seq<u8>), b: u8) -> (Seq<Seq<u8>>, Seq<u8>) {
    if b == LF {
        if acc.1.len() == 0 {
            acc
        } else {
            (acc.0.push(acc.1), Seq::empty())
        }
    } else {
        (acc.0, acc.1.push(b))
    }
}

/// Folds [`split_step`] over `s`, front first.
pub open spec fn split_scan(s: Seq<u8>, acc: (Seq<Seq<u8>>, Seq<u8>)) -> (Seq<Seq<u8>>, Seq<u8>)
    decreases s.len(),
{
    if s.len() == 0 {
        acc
    } else {
        split_scan(s.drop_first(), split_step(acc, s[0]))
    }
}

/// The non-blank lines of `s`, a trailing unterminated line included.
pub open spec fn split_lines_spec(s: Seq<u8>) -> Seq<Seq<u8>> {
    let acc = split_scan(s, (Seq::empty(), Seq::empty()));
    if acc.1.len() == 0 {
        acc.0
    } else {
        acc.0.push(acc.1)
    }
}

/// Splitting a concatenation is splitting the parts one after the other.
pub proof fn lemma_split_scan_append(a: Seq<u8>, b: Seq<u8>, acc: (Seq<Seq<u8>>, Seq<u8>))
    ensures
        split_scan(a + b, acc) == split_scan(b, split_scan(a, acc)),
    decreases a.len(),
{
    if a.len() == 0 {
        assert(a + b =~= b);
    } else {
        assert((a + b).drop_first() =~= a.drop_first() + b);
        assert((a + b)[0] == a[0]);
        lemma_split_scan_append(a.drop_first(), b, split_step(acc, a[0]));
    }
}

/// Splits the input into its non-blank lines: exactly
/// [`split_lines_spec`].
pub fn split_lines(input: &Vec<u8>) -> (r: Vec<Vec<u8>>)
    ensures
        r@.map_values(|l: Vec<u8>| l@) == split_lines_spec(input@),
{
    let mut lines: Vec<Vec<u8>> = Vec::new();
    let mut cur: Vec<u8> = Vec::new();
    let mut i: usize = 0;
    proof {
        assert(input@.take(0) =~= Seq::<u8>::empty());
        assert(split_scan(input@.take(0), (Seq::empty(), Seq::empty())) == (
        lines@.map_values(|l: Vec<u8>| l@),
        cur@,
        ));
    }
    while i < input.len()
        invariant
            i <= input@.len(),
            split_scan(input@.take(i as int), (Seq::<Seq<u8>>::empty(), Seq::<u8>::empty())) == (
            lines@.map_values(|l: Vec<u8>| l@),
            cur@,
            ),
        decreases input@.len() - i,
    {
        let ghost acc = split_scan(
            input@.take(i as int),
            (Seq::<Seq<u8>>::empty(), Seq::<u8>::empty()),
        );
        let b = input[i];
        proof {
            lemma_split_scan_append(
                input@.take(i as int),
                seq![b],
                (Seq::<Seq<u8>>::empty(), Seq::<u8>::empty()),
            );
            assert(input@.take(i as int) + seq![b] =~= input@.take(i as int + 1));
            assert(seq![b].drop_first() =~= Seq::<u8>::empty());
            assert(seq![b][0] == b);
            assert(split_scan(seq![b], acc) == split_scan(seq![b].drop_first(), split_step(acc, b)));
            assert(split_scan(Seq::<u8>::empty(), split_step(acc, b)) == split_step(acc, b));
            assert(split_scan(input@.take(i as int + 1), (Seq::<Seq<u8>>::empty(), Seq::<u8>::empty()))
                == split_step(acc, b));
        }
        if b == LF {
            if cur.len() > 0 {
                let mut fresh: Vec<u8> = Vec::new();
                core::mem::swap(&mut cur, &mut fresh);
                lines.push(fresh);
                proof {
                    assert(lines@.map_values(|l: Vec<u8>| l@) =~= split_step(acc, b).0);
                }
            }
        } else {
            cur.push(b);
        }
        i = i + 1;
    }
    proof {
        assert(input@.take(input@.len() as int) =~= input@);
    }
    if cur.len() > 0 {
        lines.push(cur);
        proof {
            assert(lines@.map_values(|l: Vec<u8>| l@) =~= split_lines_spec(input@));
        }
    } else {
        proof {
            assert(lines@.map_values(|l: Vec<u8>| l@) =~= split_lines_spec(input@));
        }
    }
    lines
}

/// Streams JSON objects into byte-bounded batches. Each object is
/// serialized compactly, after the configured field, if any, is stripped
/// from it; an object is never split across batches and never dropped.
pub struct NdJsonChunker {
    core: Chunker,
    strip_key: Option<String>,
}

impl NdJsonChunker {
    /// The serialized objects currently buffered.
    pub closed spec fn rows_spec(&self) -> Seq<Seq<u8>> {
        self.core.rows_spec()
    }

    /// The configured byte threshold.
    pub closed spec fn threshold_spec(&self) -> int {
        self.core.threshold_spec()
    }

    /// The field stripped from every object before it is measured and
    /// buffered, if one is configured.
    pub closed spec fn strip_spec(&self) -> Option<Seq<char>> {
        strip_view(self.strip_key)
    }

    /// The underlying buffer is consistent and has no prefix.
    pub closed spec fn wf(&self) -> bool {
        self.core.wf() && self.core.prefix_spec() == Seq::<u8>::empty()
    }

    /// A chunker with the given threshold; `strip_key` names a field to
    /// drop from every object before it is measured and buffered (the
    /// injectable per-record transform).
    pub fn new(size: usize, strip_key: Option<String>) -> (r: NdJsonChunker)
        ensures
            r.wf(),
            r.rows_spec() == Seq::<Seq<u8>>::empty(),
            r.threshold_spec() == size as int,
            r.strip_spec() == strip_view(strip_key),
    {
        NdJsonChunker { core: Chunker::new(Vec::new(), size), strip_key }
    }

    /// Hands the chunker an already-serialized object. Returns the
    /// finished batch if the policy closes one first; either way the bytes
    /// are buffered whole.
    pub fn push_serialized(&mut self, bytes: &Vec<u8>) -> (r: Option<Vec<u8>>)
        requires
            old(self).wf(),
        ensures
            final(self).wf(),
            final(self).threshold_spec() == old(self).threshold_spec(),
            final(self).strip_spec() == old(self).strip_spec(),
            if must_flush(old(self).rows_spec(), bytes@, 0, old(self).threshold_spec()) {
                &&& r matches Some(batch) && batch@ == old(self).rows_spec().flatten()
                &&& final(self).rows_spec() == seq![bytes@]
            } else {
                &&& r is None
                &&& final(self).rows_spec() == old(self).rows_spec().push(bytes@)
            },
    {
        proof {
            assert(batch_bytes(Seq::<u8>::empty(), old(self).rows_spec()) =~= old(
                self,
            ).rows_spec().flatten());
        }
        self.core.push(bytes)
    }

    /// Hands the chunker one object: strips the configured field, measures
    /// and buffers the compact serialization, emitting the batch the
    /// policy closes.
    pub fn push_object(&mut self, obj: serde_json::Map<String, serde_json::Value>) -> (r: Option<
        Vec<u8>,
    >)
        requires
            old(self).wf(),
        ensures
            final(self).wf(),
            final(self).threshold_spec() == old(self).threshold_spec(),
            final(self).strip_spec() == old(self).strip_spec(),
            ({
                let tb = transformed_bytes(obj, old(self).strip_spec());
                if must_flush(old(self).rows_spec(), tb, 0, old(self).threshold_spec()) {
                    &&& r matches Some(batch) && batch@ == old(self).rows_spec().flatten()
                    &&& final(self).rows_spec() == seq![tb]
                } else {
                    &&& r is None
                    &&& final(self).rows_spec() == old(self).rows_spec().push(tb)
                }
            }),
    {
        let mut obj = obj;
        match &self.strip_key {
            Some(k) => {
                remove_field(&mut obj, k.as_str());
            },
            None => {},
        }
        let bytes = json_to_vec(&obj);
        self.push_serialized(&bytes)
    }

    /// Hands the chunker one line of input: a well-formed object is pushed
    /// as [`NdJsonChunker::push_object`] does, a malformed one is the fatal
    /// error, with nothing changed.
    pub fn push_line(&mut self, line: &Vec<u8>) -> (r: Result<Option<Vec<u8>>, JsonError>)
        requires
            old(self).wf(),
        ensures
            final(self).wf(),
            final(self).threshold_spec() == old(self).threshold_spec(),
            final(self).strip_spec() == old(self).strip_spec(),
            match r {
                Err(e) => {
                    &&& json_object_of(line@) is None
                    &&& e == JsonError::Invalid
                    &&& final(self).rows_spec() == old(self).rows_spec()
                },
                Ok(opt) => {
                    &&& json_object_of(line@) matches Some(m)
                    &&& ({
                        let tb = transformed_bytes(m, old(self).strip_spec());
                        if must_flush(old(self).rows_spec(), tb, 0, old(self).threshold_spec()) {
                            &&& opt matches Some(batch) && batch@ == old(
                                self,
                            ).rows_spec().flatten()
                            &&& final(self).rows_spec() == seq![tb]
                        } else {
                            &&& opt is None
                            &&& final(self).rows_spec() == old(self).rows_spec().push(tb)
                        }
                    })
                },
            },
    {
        match parse_json_object(line) {
            Ok(obj) => Ok(self.push_object(obj)),
            Err(e) => Err(e),
        }
    }

    /// Closes the stream: returns the remaining batch if any object is
    /// buffered. The chunker is reset either way.
    pub fn finish(&mut self) -> (r: Option<Vec<u8>>)
        requires
            old(self).wf(),
        ensures
            final(self).wf(),
            final(self).threshold_spec() == old(self).threshold_spec(),
            final(self).strip_spec() == old(self).strip_spec(),
            final(self).rows_spec() == Seq::<Seq<u8>>::empty(),
            if old(self).rows_spec().len() >= 1 {
                r matches Some(batch) && batch@ == old(self).rows_spec().flatten()
            } else {
                r is None
            },
    {
        proof {
            assert(batch_bytes(Seq::<u8>::empty(), old(self).rows_spec()) =~= old(
                self,
            ).rows_spec().flatten());
        }
        self.core.finish()
    }
}

/// True when every line parses as a JSON object.
pub open spec fn ndjson_ok(lines: Seq<Seq<u8>>) -> bool {
    forall|i: int| 0 <= i < lines.len() ==> (#[trigger] json_object_of(lines[i])) is Some
}

/// The bytes each line contributes to its batch, once parsed and
/// transformed. Meaningful when [`ndjson_ok`] holds.
pub open spec fn ndjson_rows(lines: Seq<Seq<u8>>, strip: Option<Seq<char>>) -> Seq<Seq<u8>> {
    lines.map_values(|l: Seq<u8>| transformed_bytes(json_object_of(l)->0, strip))
}

/// What chunking a whole NDJSON input yields: an error if any line fails to
/// parse as an object, otherwise the batches of [`chunks_of`] over the
/// transformed serializations, with no prefix.
pub open spec fn ndjson_chunks_spec(input: Seq<u8>, size: int, strip: Option<Seq<char>>) -> Result<
    Seq<Seq<u8>>,
    JsonError,
> {
    let lines = split_lines_spec(input);
    if ndjson_ok(lines) {
        Ok(
            chunks_of(ndjson_rows(lines, strip), 0, size).map_values(
                |g: Seq<Seq<u8>>| batch_bytes(Seq::<u8>::empty(), g),
            ),
        )
    } else {
        Err(JsonError::Invalid)
    }
}

/// Splits a whole NDJSON input into batches: parses every non-blank line,
/// strips the configured field, and groups the compact serializations
/// under the byte threshold. Exactly [`ndjson_chunks_spec`]. Batches
/// already chunked are not returned when a later line is malformed: the
/// error is the whole result, as a fatal parse error aborts the run.
pub fn chunk_ndjson(input: &Vec<u8>, size: usize, strip_key: &Option<String>) -> (r: Result<
    Vec<Vec<u8>>,
    JsonError,
>)
    ensures
        match r {
            Ok(batches) => ndjson_chunks_spec(input@, size as int, strip_view(*strip_key)) == Ok::<
                Seq<Seq<u8>>,
                JsonError,
            >(batches@.map_values(|b: Vec<u8>| b@)),
            Err(e) => ndjson_chunks_spec(input@, size as int, strip_view(*strip_key)) == Err::<
                Seq<Seq<u8>>,
                JsonError,
            >(e),
        },
{
    let ghost strip = strip_view(*strip_key);
    let lines = split_lines(input);
    let ghost line_views = lines@.map_values(|l: Vec<u8>| l@);
    let mut rows: Vec<Vec<u8>> = Vec::new();
    let mut i: usize = 0;
    while i < lines.len()
        invariant
            i <= lines@.len(),
            line_views == lines@.map_values(|l: Vec<u8>| l@),
            line_views == split_lines_spec(input@),
            strip == strip_view(*strip_key),
            forall|k: int|
                0 <= k < i ==> (#[trigger] json_object_of(line_views[k])) is Some,
            rows@.len() == i,
            forall|k: int|
                0 <= k < i ==> #[trigger] rows@[k]@ == transformed_bytes(
                    json_object_of(line_views[k])->0,
                    strip,
                ),
        decreases lines@.len() - i,
    {
        let mut obj = match parse_json_object(&lines[i]) {
            Ok(obj) => obj,
            Err(e) => {
                proof {
                    assert(json_object_of(line_views[i as int]) is None);
                    assert(!ndjson_ok(line_views));
                }
                return Err(e);
            },
        };
        match strip_key {
            Some(k) => {
                remove_field(&mut obj, k.as_str());
            },
            None => {},
        }
        let bytes = json_to_vec(&obj);
        rows.push(bytes);
        i = i + 1;
    }
    proof {
        assert(ndjson_ok(line_views));
        assert(rows@.map_values(|v: Vec<u8>| v@) =~= ndjson_rows(line_views, strip));
    }
    let batches = crate::chunk::chunk_all(Vec::new(), &rows, size);
    proof {
        assert(batches@.map_values(|b: Vec<u8>| b@) == chunks_of(
            ndjson_rows(line_views, strip),
            0,
            size as int,
        ).map_values(|g: Seq<Seq<u8>>| batch_bytes(Seq::<u8>::empty(), g)));
    }
    Ok(batches)
}


/// Law: for an NDJSON input whose every line parses, concatenating the
/// object groups of every batch, in batch order, reproduces the
/// transformed serializations in their original order — no duplication,
/// no omission, no object split — and no batch is empty.
pub proof fn lemma_ndjson_batches_preserve_objects(
    lines: Seq<Seq<u8>>,
    strip: Option<Seq<char>>,
    size: int,
)
    ensures
        ({
            let rows = ndjson_rows(lines, strip);
            let batches = chunks_of(rows, 0, size);
            batches.flatten() =~= rows && forall|i: int|
                0 <= i < batches.len() ==> #[trigger] batches[i].len() >= 1
        }),
{
    let rows = ndjson_rows(lines, strip);
    crate::chunk::lemma_chunks_preserve_rows(rows, 0, size);
    crate::chunk::lemma_chunks_nonempty(rows, 0, size);
}

} // verus!
