use vstd::prelude::*;
use crate::base64_codec::{base64_decoded, base64_encodable, base64_encoded, decode_base64, encode_base64};
use crate::tree::{apply_pairs, lemma_apply_listing, lemma_apply_pairs_last_write_wins, lemma_apply_pairs_over, lemma_apply_pairs_split, Batch, Tree};

verus! {

/// How many imported records are gathered into one batch before it is applied.
pub const IMPORT_BATCH_SIZE: usize = 1000;

/// One line of an export: a key and a value, each in standard base64.
#[derive(Debug, PartialEq, Eq)]
pub struct KvRecord {
    pub key: String,
    pub value: String,
}

/// Why an import stopped.
#[derive(Clone, Copy, Debug, PartialEq, Eq, Structural)]
pub enum ImportError {
    /// A line could not be read.
    Read,
    /// A non-blank line is not a record with a string `key` and a string `value`.
    MalformedRecord,
    /// A record's key or value is not valid standard base64.
    InvalidBase64,
}

/// `record` decodes to the key and value of `entry`.
pub open spec fn decodes_to(record: KvRecord, entry: (Seq<u8>, Seq<u8>)) -> bool {
    &&& base64_decoded(record.key@) == Some(entry.0)
    &&& base64_decoded(record.value@) == Some(entry.1)
}

/// What an import makes of one non-blank line: the key and value it writes,
/// or the reason it stops.
pub open spec fn line_outcome(line: Result<KvRecord, ImportError>) -> Result<(Seq<u8>, Seq<u8>), ImportError> {
    match line {
        Err(e) => Err(e),
        Ok(r) => match (base64_decoded(r.key@), base64_decoded(r.value@)) {
            (Some(k), Some(v)) => Ok((k, v)),
            _ => Err(ImportError::InvalidBase64),
        },
    }
}

/// The first `n` lines all give a key and a value.
pub open spec fn all_decode(lines: Seq<Result<KvRecord, ImportError>>, n: int) -> bool {
    forall|i: int| 0 <= i < n ==> (#[trigger] line_outcome(lines[i])) is Ok
}

/// The keys and values that the first `n` lines give, in order.
pub open spec fn decoded_pairs(lines: Seq<Result<KvRecord, ImportError>>, n: int) -> Seq<(Seq<u8>, Seq<u8>)> {
    Seq::new(n as nat, |i: int| line_outcome(lines[i])->Ok_0)
}

/// How many records an import has applied to the tree when it stops at the
/// record with index `failed`: the whole batches before it.
pub open spec fn applied_before(failed: int) -> int {
    failed - failed % (IMPORT_BATCH_SIZE as int)
}

/// The key that line `i` writes.
pub open spec fn record_key(lines: Seq<Result<KvRecord, ImportError>>, i: int) -> Seq<u8> {
    line_outcome(lines[i])->Ok_0.0
}

/// The value that line `i` writes.
pub open spec fn record_value(lines: Seq<Result<KvRecord, ImportError>>, i: int) -> Seq<u8> {
    line_outcome(lines[i])->Ok_0.1
}

/// `after` is `before` with the records of the first `m` lines written over it
/// in order: its keys are those of `before` and of the records; a key that a
/// record holds maps to the value of the last such record; every other key
/// keeps its value.
pub open spec fn writes_records_over(
    before: Map<Seq<u8>, Seq<u8>>,
    after: Map<Seq<u8>, Seq<u8>>,
    lines: Seq<Result<KvRecord, ImportError>>,
    m: int,
) -> bool {
    &&& forall|k: Seq<u8>| #[trigger] after.contains_key(k) <==> (before.contains_key(k)
        || exists|i: int| 0 <= i < m && record_key(lines, i) == k)
    &&& forall|i: int|
        0 <= i < m && (forall|j: int| i < j < m ==> record_key(lines, j) != record_key(lines, i))
            ==> after[#[trigger] record_key(lines, i)] == record_value(lines, i)
    &&& forall|k: Seq<u8>|
        before.contains_key(k) && !(exists|i: int| 0 <= i < m && record_key(lines, i) == k)
            ==> #[trigger] after[k] == before[k]
}

/// Writing the decoded records of the first `m` lines over a map writes each
/// line's own key and value, in line order, the last record of a key winning.
pub proof fn lemma_decoded_writes(base: Map<Seq<u8>, Seq<u8>>, lines: Seq<Result<KvRecord, ImportError>>, m: int)
    requires
        0 <= m <= lines.len(),
    ensures
        forall|i: int| 0 <= i < m ==> #[trigger] decoded_pairs(lines, m)[i] == line_outcome(lines[i])->Ok_0,
        writes_records_over(base, apply_pairs(base, decoded_pairs(lines, m)), lines, m),
{
    let ps = decoded_pairs(lines, m);
    let after = apply_pairs(base, ps);
    lemma_apply_pairs_last_write_wins(base, ps);
    assert forall|i: int| 0 <= i < m implies #[trigger] ps[i] == line_outcome(lines[i])->Ok_0 by {}
    assert forall|k: Seq<u8>| #[trigger] after.contains_key(k) <==> (base.contains_key(k)
        || exists|i: int| 0 <= i < m && record_key(lines, i) == k) by {
        if exists|i: int| 0 <= i < m && record_key(lines, i) == k {
            let i = choose|i: int| 0 <= i < m && record_key(lines, i) == k;
            assert(ps[i].0 == k);
        }
        if exists|i: int| 0 <= i < ps.len() && ps[i].0 == k {
            let i = choose|i: int| 0 <= i < ps.len() && ps[i].0 == k;
            assert(record_key(lines, i) == k);
        }
    }
    assert forall|i: int|
        0 <= i < m && (forall|j: int| i < j < m ==> record_key(lines, j) != record_key(lines, i))
            implies after[#[trigger] record_key(lines, i)] == record_value(lines, i) by {
        assert forall|j: int| i < j < ps.len() implies ps[j].0 != ps[i].0 by {
            assert(record_key(lines, j) != record_key(lines, i));
        }
        assert(ps[i].0 == record_key(lines, i));
    }
    assert forall|k: Seq<u8>|
        base.contains_key(k) && !(exists|i: int| 0 <= i < m && record_key(lines, i) == k)
            implies #[trigger] after[k] == base[k] by {
        if exists|i: int| 0 <= i < ps.len() && ps[i].0 == k {
            let i = choose|i: int| 0 <= i < ps.len() && ps[i].0 == k;
            assert(record_key(lines, i) == k);
        }
    }
}

/// A failed import has applied exactly the largest multiple of
/// `IMPORT_BATCH_SIZE` records that does not pass the failing record: every
/// full batch read before it, and none of the records after the last full batch.
pub proof fn lemma_applied_before_is_whole_batches(failed: int)
    requires
        0 <= failed,
    ensures
        applied_before(failed) % 1000 == 0,
        0 <= applied_before(failed) <= failed,
        failed < applied_before(failed) + 1000,
{
}

/// Whether `c` is Unicode white space (the `White_Space` property).
pub open spec fn is_white_space(c: char) -> bool {
    ||| '\u{9}' <= c <= '\u{d}'
    ||| c == ' '
    ||| c == '\u{85}'
    ||| c == '\u{a0}'
    ||| c == '\u{1680}'
    ||| '\u{2000}' <= c <= '\u{200a}'
    ||| c == '\u{2028}'
    ||| c == '\u{2029}'
    ||| c == '\u{202f}'
    ||| c == '\u{205f}'
    ||| c == '\u{3000}'
}

fn char_is_white_space(c: char) -> (b: bool)
    ensures
        b == is_white_space(c),
{
    ('\u{9}' <= c && c <= '\u{d}') || c == ' ' || c == '\u{85}' || c == '\u{a0}' || c == '\u{1680}'
        || ('\u{2000}' <= c && c <= '\u{200a}') || c == '\u{2028}' || c == '\u{2029}' || c
        == '\u{202f}' || c == '\u{205f}' || c == '\u{3000}'
}

/// Whether an import skips `line`: it is empty or white space only.
pub fn is_blank_line(line: &str) -> (b: bool)
    ensures
        b == forall|i: int| 0 <= i < line@.len() ==> is_white_space(#[trigger] line@[i]),
{
    for c in iter: line.chars()
        invariant
            iter.seq() == line@,
            forall|i: int| 0 <= i < iter.index() ==> is_white_space(#[trigger] line@[i]),
    {
        if !char_is_white_space(c) {
            return false;
        }
    }
    true
}

impl Tree {
    /// The records of an export, one per entry in iteration order: the entry's
    /// key and value, each in standard base64.
    pub fn export_jsonl(&self) -> (records: Vec<KvRecord>)
        requires
            self.wf(),
            forall|i: int|
                0 <= i < self.entries().len() ==> base64_encodable(#[trigger] self.entries()[i].0.len())
                    && base64_encodable(self.entries()[i].1.len()),
        ensures
            records.len() == self.entries().len(),
            forall|i: int| 0 <= i < records.len() ==> {
                &&& (#[trigger] records[i]).key@ == base64_encoded(self.entries()[i].0)
                &&& records[i].value@ == base64_encoded(self.entries()[i].1)
            },
            forall|i: int| 0 <= i < records.len() ==> decodes_to(#[trigger] records[i], self.entries()[i]),
    {
        let n = self.len();
        let mut records: Vec<KvRecord> = Vec::new();
        let mut i: usize = 0;
        while i < n
            invariant
                self.wf(),
                n == self.entries().len(),
                i <= n,
                forall|i: int|
                    0 <= i < self.entries().len() ==> base64_encodable(#[trigger] self.entries()[i].0.len())
                        && base64_encodable(self.entries()[i].1.len()),
                records.len() == i,
                forall|j: int| 0 <= j < i ==> {
                    &&& (#[trigger] records[j]).key@ == base64_encoded(self.entries()[j].0)
                    &&& records[j].value@ == base64_encoded(self.entries()[j].1)
                    &&& decodes_to(records[j], self.entries()[j])
                },
            decreases n - i,
        {
            let (key, value) = self.entry(i);
            assert(base64_encodable(self.entries()[i as int].0.len()));
            let record = KvRecord {
                key: encode_base64(key.as_slice()),
                value: encode_base64(value.as_slice()),
            };
            records.push(record);
            i = i + 1;
        }
        records
    }

    /// Imports the lines of an export, given as the records that its non-blank
    /// lines hold (or the reason a line holds none), in order.
    ///
    /// Records are decoded and gathered into batches of `IMPORT_BATCH_SIZE`,
    /// each applied as soon as it is full, the last one at the end. Keys that
    /// the records hold take the record's value; other keys keep theirs. The
    /// first line that gives no key and value stops the import with its error,
    /// and the records gathered since the last full batch are then dropped.
    pub fn import_jsonl(&mut self, lines: &Vec<Result<KvRecord, ImportError>>) -> (res: Result<usize, ImportError>)
        requires
            old(self).wf(),
        ensures
            final(self).wf(),
            res is Ok <==> all_decode(lines@, lines@.len() as int),
            res matches Ok(n) ==> {
                &&& n == lines@.len()
                &&& final(self)@ == apply_pairs(old(self)@, decoded_pairs(lines@, lines@.len() as int))
                &&& writes_records_over(old(self)@, final(self)@, lines@, lines@.len() as int)
            },
            res matches Err(e) ==> exists|f: int| {
                &&& 0 <= f < lines@.len()
                &&& all_decode(lines@, f)
                &&& #[trigger] line_outcome(lines@[f]) == Err::<(Seq<u8>, Seq<u8>), ImportError>(e)
                &&& final(self)@ == apply_pairs(old(self)@, decoded_pairs(lines@, applied_before(f)))
                &&& writes_records_over(old(self)@, final(self)@, lines@, f - f % 1000)
            },
    {
        let ghost base = self@;
        let ghost ls = lines@;
        let mut batch = Batch::new();
        let mut count: usize = 0;
        assert(decoded_pairs(ls, 0) =~= Seq::<(Seq<u8>, Seq<u8>)>::empty());
        assert(decoded_pairs(ls, 0).subrange(0, 0) =~= batch.writes());
        while count < lines.len()
            invariant
                ls == lines@,
                base == old(self)@,
                count <= ls.len(),
                self.wf(),
                all_decode(ls, count as int),
                self@ == apply_pairs(base, decoded_pairs(ls, applied_before(count as int))),
                batch.writes() == decoded_pairs(ls, count as int).subrange(applied_before(count as int), count as int),
            decreases ls.len() - count,
        {
            let ghost i = count as int;
            let record = match &lines[count] {
                Err(e) => {
                    assert(line_outcome(ls[i]) == Err::<(Seq<u8>, Seq<u8>), ImportError>(*e));
                    proof { lemma_decoded_writes(base, ls, applied_before(i)); }
                    return Err(*e);
                },
                Ok(record) => record,
            };
            let key = match decode_base64(record.key.as_str()) {
                Ok(key) => key,
                Err(_) => {
                    assert(line_outcome(ls[i]) == Err::<(Seq<u8>, Seq<u8>), ImportError>(ImportError::InvalidBase64));
                    proof { lemma_decoded_writes(base, ls, applied_before(i)); }
                    return Err(ImportError::InvalidBase64);
                },
            };
            let value = match decode_base64(record.value.as_str()) {
                Ok(value) => value,
                Err(_) => {
                    assert(line_outcome(ls[i]) == Err::<(Seq<u8>, Seq<u8>), ImportError>(ImportError::InvalidBase64));
                    proof { lemma_decoded_writes(base, ls, applied_before(i)); }
                    return Err(ImportError::InvalidBase64);
                },
            };
            assert(line_outcome(ls[i]) == Ok::<(Seq<u8>, Seq<u8>), ImportError>((key@, value@)));
            batch.insert(key, value);
            count = count + 1;
            proof {
                let c = count as int;
                assert(decoded_pairs(ls, c) =~= decoded_pairs(ls, i).push((key@, value@)));
                assert forall|j: int| 0 <= j < c implies (#[trigger] line_outcome(ls[j])) is Ok by {
                    if j < i {
                        assert(line_outcome(ls[j]) is Ok);
                    }
                }
            }
            if count % IMPORT_BATCH_SIZE == 0 {
                let full = batch;
                batch = Batch::new();
                proof {
                    let c = count as int;
                    let a = applied_before(i);
                    let pc = decoded_pairs(ls, c);
                    assert(applied_before(c) == c);
                    assert(full.writes() =~= pc.subrange(a, c));
                    assert(decoded_pairs(ls, a) =~= pc.take(a));
                    assert(pc.take(c) =~= pc);
                    lemma_apply_pairs_split(base, pc, a);
                    assert(pc.skip(a) =~= full.writes());
                    lemma_apply_pairs_over(apply_pairs(base, pc.take(a)), full.writes());
                    assert(batch.writes() =~= pc.subrange(c, c));
                }
                self.apply_batch(full);
            } else {
                proof {
                    let c = count as int;
                    assert(applied_before(c) == applied_before(i));
                    assert(decoded_pairs(ls, applied_before(c)) =~= decoded_pairs(ls, applied_before(i)));
                    assert(batch.writes() =~= decoded_pairs(ls, c).subrange(applied_before(c), c));
                }
            }
        }
        proof {
            let n = count as int;
            let a = applied_before(n);
            let pn = decoded_pairs(ls, n);
            assert(decoded_pairs(ls, a) =~= pn.take(a));
            lemma_apply_pairs_split(base, pn, a);
            assert(pn.skip(a) =~= batch.writes());
            lemma_apply_pairs_over(apply_pairs(base, pn.take(a)), batch.writes());
        }
        if !batch.is_empty() {
            self.apply_batch(batch);
        } else {
            proof {
                let n = count as int;
                let pn = decoded_pairs(ls, n);
                let a = applied_before(n);
                assert(batch.writes().len() == 0);
                assert(pn.skip(a).len() == 0);
                assert(apply_pairs(base, pn) == apply_pairs(apply_pairs(base, pn.take(a)), pn.skip(a)));
            }
        }
        proof { lemma_decoded_writes(base, ls, count as int); }
        Ok(count)
    }
}

/// Importing the records of an export restores what was exported: every
/// exported key gets its exported value in the importing tree, every other key
/// keeps its value there, and every record counts, one per exported entry.
pub proof fn lemma_import_restores_export(
    source: Tree,
    dest: Map<Seq<u8>, Seq<u8>>,
    lines: Seq<Result<KvRecord, ImportError>>,
)
    requires
        source.wf(),
        lines.len() == source.entries().len(),
        forall|i: int|
            0 <= i < lines.len() ==> (#[trigger] lines[i]) is Ok && decodes_to(
                lines[i]->Ok_0,
                source.entries()[i],
            ),
    ensures
        all_decode(lines, lines.len() as int),
        apply_pairs(dest, decoded_pairs(lines, lines.len() as int)) == dest.union_prefer_right(source@),
{
    let es = source.entries();
    assert forall|i: int| 0 <= i < lines.len() implies (#[trigger] line_outcome(lines[i])) is Ok by {
        assert(lines[i] is Ok);
    }
    assert forall|i: int| 0 <= i < lines.len() implies #[trigger] decoded_pairs(lines, lines.len() as int)[i] == es[i] by {
        assert(lines[i] is Ok);
    }
    assert(decoded_pairs(lines, lines.len() as int) =~= es);
    lemma_apply_pairs_over(dest, es);
    lemma_apply_listing(es, source@);
}

} // verus!
