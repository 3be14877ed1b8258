//! The provider's series as raw text, its typed records, and the
//! normalization from one to the other.
use crate::number::{count_of, parse_count, parse_price, price_of, Price};
use crate::timestamp::{at_or_before, before, lemma_before_total, lemma_before_transitive};
use crate::timestamp::{parse_timestamp, timestamp_of, DateTime};
use vstd::prelude::*;
use vstd::seq_lib::lemma_multiset_commutative;

verus! {

// The labels under which the provider sends the values of one record.
pub const OPEN_LABEL: &'static str = "1. open";

pub const HIGH_LABEL: &'static str = "2. high";

pub const LOW_LABEL: &'static str = "3. low";

pub const CLOSE_LABEL: &'static str = "4. close";

pub const VOLUME_LABEL: &'static str = "5. volume";

/// One record of the series: the sampled point in time, its four prices and
/// its traded volume.
#[derive(Clone, Copy, Debug, PartialEq, Eq, Structural)]
pub struct SeriesEntry {
    pub date: DateTime,
    pub open: Price,
    pub high: Price,
    pub low: Price,
    pub close: Price,
    pub volume: u64,
}

impl Default for SeriesEntry {
    /// Midnight of 1970-01-01, every price and the volume zero.
    fn default() -> (r: SeriesEntry)
        ensures
            r == (SeriesEntry {
                date: DateTime {
                    year: 1970,
                    month: 1,
                    day: 1,
                    hour: 0,
                    minute: 0,
                    second: 0,
                    nanosecond: 0,
                },
                open: Price::zero_spec(),
                high: Price::zero_spec(),
                low: Price::zero_spec(),
                close: Price::zero_spec(),
                volume: 0,
            }),
    {
        SeriesEntry {
            date: DateTime::new(1970, 1, 1, 0, 0, 0),
            open: Price::zero(),
            high: Price::zero(),
            low: Price::zero(),
            close: Price::zero(),
            volume: 0,
        }
    }
}

/// One timestamp key of the provider's series with its labelled text values.
#[derive(Clone, Debug, PartialEq, Eq)]
pub struct RawEntry {
    pub timestamp: String,
    pub fields: Vec<(String, String)>,
}

/// The provider's series: timestamp keys in no particular order.
#[derive(Clone, Debug, PartialEq, Eq)]
pub struct AlphaVantageResponse {
    pub time_series: Vec<RawEntry>,
}

/// Why a series could not be normalized.
#[derive(Clone, Copy, Debug, PartialEq, Eq, Structural)]
pub enum NormalizeError {
    /// A timestamp key does not follow `YYYY-MM-DD HH:MM:SS`.
    InvalidTimestamp,
    /// The text under a recognized label is not a number of its kind.
    InvalidValue,
}

/// The record fields that a label can fill.
#[derive(Clone, Copy, Debug, PartialEq, Eq, Structural)]
pub enum Field {
    Open,
    High,
    Low,
    Close,
    Volume,
}

pub open spec fn field_of(label: Seq<char>) -> Option<Field> {
    if label == OPEN_LABEL@ {
        Some(Field::Open)
    } else if label == HIGH_LABEL@ {
        Some(Field::High)
    } else if label == LOW_LABEL@ {
        Some(Field::Low)
    } else if label == CLOSE_LABEL@ {
        Some(Field::Close)
    } else if label == VOLUME_LABEL@ {
        Some(Field::Volume)
    } else {
        None
    }
}

pub open spec fn is_recognized(pair: (String, String)) -> bool {
    field_of(pair.0@) is Some
}

/// The value of one pair reads as a number of its label's kind; a pair
/// under another label is not looked at.
pub open spec fn value_reads(pair: (String, String)) -> bool {
    match field_of(pair.0@) {
        Some(Field::Volume) => count_of(pair.1@) is Some,
        Some(_) => price_of(pair.1@) is Some,
        None => true,
    }
}

pub open spec fn fields_valid(fields: Seq<(String, String)>) -> bool {
    forall|i: int| 0 <= i < fields.len() ==> value_reads(#[trigger] fields[i])
}

/// The text of the last pair labelled `label`.
pub open spec fn last_text(fields: Seq<(String, String)>, label: Seq<char>) -> Option<Seq<char>>
    decreases fields.len(),
{
    if fields.len() == 0 {
        None
    } else if fields.last().0@ == label {
        Some(fields.last().1@)
    } else {
        last_text(fields.drop_last(), label)
    }
}

pub open spec fn price_field(fields: Seq<(String, String)>, label: Seq<char>) -> Price {
    match last_text(fields, label) {
        Some(t) => match price_of(t) {
            Some(p) => p,
            None => Price::zero_spec(),
        },
        None => Price::zero_spec(),
    }
}

pub open spec fn volume_field(fields: Seq<(String, String)>) -> u64 {
    match last_text(fields, VOLUME_LABEL@) {
        Some(t) => match count_of(t) {
            Some(v) => v,
            None => 0,
        },
        None => 0,
    }
}

/// The record of one timestamp: each field read from its label, zero where
/// the label is missing.
pub open spec fn entry_spec(date: DateTime, fields: Seq<(String, String)>) -> SeriesEntry {
    SeriesEntry {
        date,
        open: price_field(fields, OPEN_LABEL@),
        high: price_field(fields, HIGH_LABEL@),
        low: price_field(fields, LOW_LABEL@),
        close: price_field(fields, CLOSE_LABEL@),
        volume: volume_field(fields),
    }
}

/// What one raw entry normalizes to, given what its key parsed to.
pub open spec fn entry_result(stamp: Option<DateTime>, fields: Seq<(String, String)>) -> Result<
    SeriesEntry,
    NormalizeError,
> {
    match stamp {
        None => Err(NormalizeError::InvalidTimestamp),
        Some(d) => if fields_valid(fields) {
            Ok(entry_spec(d, fields))
        } else {
            Err(NormalizeError::InvalidValue)
        },
    }
}

#[verifier::opaque]
pub open spec fn raw_entry_result(e: RawEntry) -> Result<SeriesEntry, NormalizeError> {
    entry_result(timestamp_of(e.timestamp@), e.fields@)
}

/// Whether two texts are equal, character by character.
pub fn same_text(a: &str, b: &str) -> (r: bool)
    ensures
        r == (a@ == b@),
{
    let n = a.unicode_len();
    if n != b.unicode_len() {
        return false;
    }
    let mut i: usize = 0;
    while i < n
        invariant
            n == a@.len() == b@.len(),
            i <= n,
            forall|j: int| 0 <= j < i ==> a@[j] == b@[j],
        decreases n - i,
    {
        if a.get_char(i) != b.get_char(i) {
            return false;
        }
        i = i + 1;
    }
    assert(a@ =~= b@);
    true
}

proof fn lemma_labels_distinct()
    ensures
        OPEN_LABEL@ != HIGH_LABEL@,
        OPEN_LABEL@ != LOW_LABEL@,
        OPEN_LABEL@ != CLOSE_LABEL@,
        OPEN_LABEL@ != VOLUME_LABEL@,
        HIGH_LABEL@ != LOW_LABEL@,
        HIGH_LABEL@ != CLOSE_LABEL@,
        HIGH_LABEL@ != VOLUME_LABEL@,
        LOW_LABEL@ != CLOSE_LABEL@,
        LOW_LABEL@ != VOLUME_LABEL@,
        CLOSE_LABEL@ != VOLUME_LABEL@,
{
    reveal_strlit("1. open");
    reveal_strlit("2. high");
    reveal_strlit("3. low");
    reveal_strlit("4. close");
    reveal_strlit("5. volume");
    assert(OPEN_LABEL@[0] != HIGH_LABEL@[0]);
    assert(OPEN_LABEL@[0] != LOW_LABEL@[0]);
    assert(OPEN_LABEL@[0] != CLOSE_LABEL@[0]);
    assert(OPEN_LABEL@[0] != VOLUME_LABEL@[0]);
    assert(HIGH_LABEL@[0] != LOW_LABEL@[0]);
    assert(HIGH_LABEL@[0] != CLOSE_LABEL@[0]);
    assert(HIGH_LABEL@[0] != VOLUME_LABEL@[0]);
    assert(LOW_LABEL@[0] != CLOSE_LABEL@[0]);
    assert(LOW_LABEL@[0] != VOLUME_LABEL@[0]);
    assert(CLOSE_LABEL@[0] != VOLUME_LABEL@[0]);
}

proof fn lemma_invalid_at(fields: Seq<(String, String)>, i: int)
    requires
        0 <= i < fields.len(),
        !value_reads(fields[i]),
    ensures
        !fields_valid(fields),
{
}

proof fn lemma_last_text_step(fields: Seq<(String, String)>, i: int, label: Seq<char>)
    requires
        0 <= i < fields.len(),
    ensures
        last_text(fields.take(i + 1), label) == if fields[i].0@ == label {
            Some(fields[i].1@)
        } else {
            last_text(fields.take(i), label)
        },
{
    assert(fields.take(i + 1).drop_last() =~= fields.take(i));
}

/// Builds the record of one raw entry from what its key parsed to and its
/// labelled values.
pub fn entry_from_parsed(stamp: Option<DateTime>, fields: &Vec<(String, String)>) -> (r: Result<
    SeriesEntry,
    NormalizeError,
>)
    ensures
        r == entry_result(stamp, fields@),
{
    if stamp.is_none() {
        return Err(NormalizeError::InvalidTimestamp);
    }
    let date = stamp.unwrap();
    let mut open = Price::zero();
    let mut high = Price::zero();
    let mut low = Price::zero();
    let mut close = Price::zero();
    let mut volume: u64 = 0;
    let n = fields.len();
    let mut i: usize = 0;
    while i < n
        invariant
            n == fields@.len(),
            i <= n,
            stamp == Some(date),
            fields_valid(fields@.take(i as int)),
            open == price_field(fields@.take(i as int), OPEN_LABEL@),
            high == price_field(fields@.take(i as int), HIGH_LABEL@),
            low == price_field(fields@.take(i as int), LOW_LABEL@),
            close == price_field(fields@.take(i as int), CLOSE_LABEL@),
            volume == volume_field(fields@.take(i as int)),
        decreases n - i,
    {
        let label = fields[i].0.as_str();
        let text = fields[i].1.as_str();
        proof {
            lemma_labels_distinct();
            lemma_last_text_step(fields@, i as int, OPEN_LABEL@);
            lemma_last_text_step(fields@, i as int, HIGH_LABEL@);
            lemma_last_text_step(fields@, i as int, LOW_LABEL@);
            lemma_last_text_step(fields@, i as int, CLOSE_LABEL@);
            lemma_last_text_step(fields@, i as int, VOLUME_LABEL@);
        }
        let ghost prefix = fields@.take(i + 1);
        assert(prefix[i as int] == fields@[i as int]);
        if same_text(label, OPEN_LABEL) {
            match parse_price(text) {
                Some(p) => open = p,
                None => {
                    proof {
                        lemma_invalid_at(fields@, i as int);
                    }
                    return Err(NormalizeError::InvalidValue);
                },
            }
        } else if same_text(label, HIGH_LABEL) {
            match parse_price(text) {
                Some(p) => high = p,
                None => {
                    proof {
                        lemma_invalid_at(fields@, i as int);
                    }
                    return Err(NormalizeError::InvalidValue);
                },
            }
        } else if same_text(label, LOW_LABEL) {
            match parse_price(text) {
                Some(p) => low = p,
                None => {
                    proof {
                        lemma_invalid_at(fields@, i as int);
                    }
                    return Err(NormalizeError::InvalidValue);
                },
            }
        } else if same_text(label, CLOSE_LABEL) {
            match parse_price(text) {
                Some(p) => close = p,
                None => {
                    proof {
                        lemma_invalid_at(fields@, i as int);
                    }
                    return Err(NormalizeError::InvalidValue);
                },
            }
        } else if same_text(label, VOLUME_LABEL) {
            match parse_count(text) {
                Some(v) => volume = v,
                None => {
                    proof {
                        lemma_invalid_at(fields@, i as int);
                    }
                    return Err(NormalizeError::InvalidValue);
                },
            }
        }
        assert(forall|j: int| 0 <= j < i ==> prefix[j] == fields@.take(i as int)[j]);
        i = i + 1;
    }
    assert(fields@.take(n as int) =~= fields@);
    Ok(SeriesEntry { date, open, high, low, close, volume })
}

/// Normalizes one raw entry: its key read as a timestamp, then its values.
pub fn parse_entry(entry: &RawEntry) -> (r: Result<SeriesEntry, NormalizeError>)
    ensures
        r == raw_entry_result(*entry),
{
    let stamp = parse_timestamp(entry.timestamp.as_str());
    proof {
        reveal(raw_entry_result);
    }
    entry_from_parsed(stamp, &entry.fields)
}

/// `r` holds the records of `s` rearranged by `perm` (`r[k]` is `s[perm[k]]`),
/// ordered by date, records of equal dates kept in their order in `s`.
pub open spec fn stable_arrangement(s: Seq<SeriesEntry>, r: Seq<SeriesEntry>, perm: Seq<int>) -> bool {
    &&& perm.len() == s.len()
    &&& r.len() == s.len()
    &&& forall|k: int| 0 <= k < perm.len() ==> 0 <= #[trigger] perm[k] < s.len()
    &&& forall|k: int| 0 <= k < perm.len() ==> #[trigger] r[k] == s[perm[k]]
    &&& forall|k: int, l: int|
        0 <= k < l < perm.len() ==> #[trigger] perm[k] != #[trigger] perm[l]
    &&& forall|k: int, l: int|
        0 <= k < l < perm.len() ==> before(#[trigger] r[k].date, #[trigger] r[l].date) || (
        r[k].date == r[l].date && perm[k] < perm[l])
}

/// `r` is `s` sorted by date with a stable sort: the same records, each as
/// often.
pub open spec fn is_stable_sort_of(s: Seq<SeriesEntry>, r: Seq<SeriesEntry>) -> bool {
    &&& exists|perm: Seq<int>| stable_arrangement(s, r, perm)
    &&& r.to_multiset() == s.to_multiset()
}

pub open spec fn sorted_by_date(r: Seq<SeriesEntry>) -> bool {
    forall|k: int, l: int| 0 <= k < l < r.len() ==> at_or_before(#[trigger] r[k].date, #[trigger] r[l].date)
}

/// Sorts records by date, earliest first; records of equal dates keep
/// their relative order.
pub fn sort_entries(entries: Vec<SeriesEntry>) -> (r: Vec<SeriesEntry>)
    ensures
        is_stable_sort_of(entries@, r@),
{
    let n = entries.len();
    let mut out: Vec<SeriesEntry> = Vec::new();
    let ghost mut perm: Seq<int> = Seq::empty();
    assert(out@ =~= entries@.take(0));
    let mut i: usize = 0;
    while i < n
        invariant
            n == entries@.len(),
            i <= n,
            perm.len() == i,
            out@.len() == i,
            out@.to_multiset() == entries@.take(i as int).to_multiset(),
            forall|k: int| 0 <= k < i ==> 0 <= #[trigger] perm[k] < i,
            forall|k: int| 0 <= k < i ==> #[trigger] out@[k] == entries@[perm[k]],
            forall|k: int, l: int| 0 <= k < l < i ==> #[trigger] perm[k] != #[trigger] perm[l],
            forall|k: int, l: int|
                0 <= k < l < i ==> before(#[trigger] out@[k].date, #[trigger] out@[l].date) || (
                out@[k].date == out@[l].date && perm[k] < perm[l]),
        decreases n - i,
    {
        let e = entries[i];
        let mut j: usize = 0;
        while j < out.len() && out[j].date.is_at_or_before(&e.date)
            invariant
                out@.len() == i,
                j <= i,
                forall|k: int| 0 <= k < j ==> at_or_before(#[trigger] out@[k].date, e.date),
            decreases i - j,
        {
            j = j + 1;
        }
        proof {
            if j < i {
                lemma_before_total(out@[j as int].date, e.date);
                assert forall|l: int| j <= l < i implies before(e.date, #[trigger] out@[l].date) by {
                    if l > j {
                        lemma_before_transitive(e.date, out@[j as int].date, out@[l].date);
                    }
                }
            }
        }
        let ghost old_out = out@;
        let ghost old_perm = perm;
        out.insert(j, e);
        proof {
            broadcast use vstd::seq_lib::group_to_multiset_ensures;

            lemma_multiset_commutative(old_out.take(j as int), old_out.skip(j as int));
            lemma_multiset_commutative(old_out.take(j as int).push(e), old_out.skip(j as int));
            assert(old_out =~= old_out.take(j as int) + old_out.skip(j as int));
            assert(out@ =~= old_out.take(j as int).push(e) + old_out.skip(j as int));
            assert(entries@.take(i + 1) =~= entries@.take(i as int).push(e));
            perm = perm.insert(j as int, i as int);
            assert forall|k: int| 0 <= k < i + 1 implies 0 <= #[trigger] perm[k] < i + 1
                && out@[k] == entries@[perm[k]] by {
                if k < j {
                    assert(perm[k] == old_perm[k]);
                    assert(out@[k] == old_out[k]);
                } else if k > j {
                    assert(perm[k] == old_perm[k - 1]);
                    assert(out@[k] == old_out[k - 1]);
                }
            }
            assert forall|k: int, l: int| 0 <= k < l < i + 1 implies #[trigger] perm[k]
                != #[trigger] perm[l] && (before(out@[k].date, out@[l].date) || (
            out@[k].date == out@[l].date && perm[k] < perm[l])) by {
                let k0 = if k < j { k } else { k - 1 };
                let l0 = if l <= j { l } else { l - 1 };
                if k < j && l == j {
                    lemma_before_total(out@[k].date, e.date);
                } else if k < j && l > j {
                    assert(perm[l] == old_perm[l0]);
                } else if k == j {
                    assert(perm[l] == old_perm[l0]);
                } else {
                    assert(perm[k] == old_perm[k0]);
                    assert(perm[l] == old_perm[l0]);
                }
            }
        }
        i = i + 1;
    }
    assert(stable_arrangement(entries@, out@, perm));
    assert(entries@.take(n as int) =~= entries@);
    out
}

/// The records of the raw entries, in the order of the raw entries, where
/// every one of them normalizes.
pub open spec fn parsed_entries(raw: Seq<RawEntry>) -> Seq<SeriesEntry> {
    Seq::new(raw.len(), |i: int| raw_entry_result(raw[i])->Ok_0)
}

pub open spec fn all_entries_valid(raw: Seq<RawEntry>) -> bool {
    forall|i: int| 0 <= i < raw.len() ==> (#[trigger] raw_entry_result(raw[i])) is Ok
}

/// The error of the first raw entry that does not normalize is `e`.
pub open spec fn fails_first_with(raw: Seq<RawEntry>, e: NormalizeError) -> bool {
    exists|i: int|
        0 <= i < raw.len() && raw_entry_result(raw[i]) == Err::<SeriesEntry, NormalizeError>(e)
            && forall|j: int| 0 <= j < i ==> (#[trigger] raw_entry_result(raw[j])) is Ok
}

/// Normalizes the provider's series: one record per timestamp key, ordered
/// by date, or the error of the first entry (in the order given) that
/// cannot be read.
pub fn parse_response(res: &AlphaVantageResponse) -> (r: Result<Vec<SeriesEntry>, NormalizeError>)
    ensures
        match r {
            Ok(v) => all_entries_valid(res.time_series@) && is_stable_sort_of(
                parsed_entries(res.time_series@),
                v@,
            ),
            Err(e) => !all_entries_valid(res.time_series@) && fails_first_with(
                res.time_series@,
                e,
            ),
        },
{
    let raw = &res.time_series;
    let n = raw.len();
    let mut entries: Vec<SeriesEntry> = Vec::new();
    let mut i: usize = 0;
    while i < n
        invariant
            raw@ == res.time_series@,
            n == raw@.len(),
            i <= n,
            entries@.len() == i,
            forall|j: int| 0 <= j < i ==> (#[trigger] raw_entry_result(raw@[j])) is Ok,
            forall|j: int| 0 <= j < i ==> #[trigger] entries@[j] == raw_entry_result(raw@[j])->Ok_0,
        decreases n - i,
    {
        match parse_entry(&raw[i]) {
            Ok(e) => entries.push(e),
            Err(e) => {
                assert(raw_entry_result(raw@[i as int]) == Err::<SeriesEntry, NormalizeError>(e));
                assert(fails_first_with(raw@, e));
                assert(!all_entries_valid(raw@));
                return Err(e);
            },
        }
        i = i + 1;
    }
    assert(entries@ =~= parsed_entries(raw@));
    assert(all_entries_valid(raw@));
    let sorted = sort_entries(entries);
    assert(is_stable_sort_of(parsed_entries(raw@), sorted@));
    Ok(sorted)
}

proof fn lemma_single_occurrence(fields: Seq<(String, String)>, label: Seq<char>, i: int)
    requires
        0 <= i < fields.len(),
        fields[i].0@ == label,
        forall|j: int| 0 <= j < fields.len() && (#[trigger] fields[j]).0@ == label ==> j == i,
    ensures
        last_text(fields, label) == Some(fields[i].1@),
    decreases fields.len(),
{
    if i < fields.len() - 1 {
        let d = fields.drop_last();
        assert(fields[fields.len() - 1].0@ != label);
        assert forall|j: int| 0 <= j < d.len() && (#[trigger] d[j]).0@ == label implies j == i by {
            assert(d[j] == fields[j]);
        }
        lemma_single_occurrence(d, label, i);
    }
}

proof fn lemma_absent(fields: Seq<(String, String)>, label: Seq<char>)
    requires
        forall|j: int| 0 <= j < fields.len() ==> (#[trigger] fields[j]).0@ != label,
    ensures
        last_text(fields, label) is None,
    decreases fields.len(),
{
    if fields.len() > 0 {
        let d = fields.drop_last();
        assert(fields[fields.len() - 1].0@ != label);
        assert forall|j: int| 0 <= j < d.len() implies (#[trigger] d[j]).0@ != label by {
            assert(d[j] == fields[j]);
        }
        lemma_absent(d, label);
    }
}

/// Where each of the five labels occurs once and every value reads, the
/// record holds exactly the values read from the five texts, whatever the
/// order of the pairs.
pub proof fn lemma_all_labels_read(
    date: DateTime,
    fields: Seq<(String, String)>,
    io: int,
    ih: int,
    il: int,
    ic: int,
    iv: int,
)
    requires
        fields_valid(fields),
        0 <= io < fields.len() && fields[io].0@ == OPEN_LABEL@,
        0 <= ih < fields.len() && fields[ih].0@ == HIGH_LABEL@,
        0 <= il < fields.len() && fields[il].0@ == LOW_LABEL@,
        0 <= ic < fields.len() && fields[ic].0@ == CLOSE_LABEL@,
        0 <= iv < fields.len() && fields[iv].0@ == VOLUME_LABEL@,
        forall|j: int| 0 <= j < fields.len() && (#[trigger] fields[j]).0@ == OPEN_LABEL@ ==> j == io,
        forall|j: int| 0 <= j < fields.len() && (#[trigger] fields[j]).0@ == HIGH_LABEL@ ==> j == ih,
        forall|j: int| 0 <= j < fields.len() && (#[trigger] fields[j]).0@ == LOW_LABEL@ ==> j == il,
        forall|j: int| 0 <= j < fields.len() && (#[trigger] fields[j]).0@ == CLOSE_LABEL@ ==> j == ic,
        forall|j: int| 0 <= j < fields.len() && (#[trigger] fields[j]).0@ == VOLUME_LABEL@ ==> j == iv,
    ensures
        entry_result(Some(date), fields) == Ok::<SeriesEntry, NormalizeError>(
            SeriesEntry {
                date,
                open: price_of(fields[io].1@)->Some_0,
                high: price_of(fields[ih].1@)->Some_0,
                low: price_of(fields[il].1@)->Some_0,
                close: price_of(fields[ic].1@)->Some_0,
                volume: count_of(fields[iv].1@)->Some_0,
            },
        ),
{
    lemma_labels_distinct();
    lemma_single_occurrence(fields, OPEN_LABEL@, io);
    lemma_single_occurrence(fields, HIGH_LABEL@, ih);
    lemma_single_occurrence(fields, LOW_LABEL@, il);
    lemma_single_occurrence(fields, CLOSE_LABEL@, ic);
    lemma_single_occurrence(fields, VOLUME_LABEL@, iv);
    assert(value_reads(fields[io]));
    assert(value_reads(fields[ih]));
    assert(value_reads(fields[il]));
    assert(value_reads(fields[ic]));
    assert(value_reads(fields[iv]));
}

/// A recognized label that no pair carries leaves its field of the record
/// at zero.
pub proof fn lemma_missing_label_zero(date: DateTime, fields: Seq<(String, String)>, label: Seq<char>)
    requires
        fields_valid(fields),
        field_of(label) is Some,
        forall|j: int| 0 <= j < fields.len() ==> (#[trigger] fields[j]).0@ != label,
    ensures
        match entry_result(Some(date), fields) {
            Ok(e) => {
                &&& label == OPEN_LABEL@ ==> e.open == Price::zero_spec()
                &&& label == HIGH_LABEL@ ==> e.high == Price::zero_spec()
                &&& label == LOW_LABEL@ ==> e.low == Price::zero_spec()
                &&& label == CLOSE_LABEL@ ==> e.close == Price::zero_spec()
                &&& label == VOLUME_LABEL@ ==> e.volume == 0
            },
            Err(_) => false,
        },
{
    lemma_absent(fields, label);
}

proof fn lemma_valid_step(fields: Seq<(String, String)>)
    requires
        fields.len() > 0,
    ensures
        fields_valid(fields) == (fields_valid(fields.drop_last()) && value_reads(fields.last())),
{
    let d = fields.drop_last();
    if fields_valid(d) && value_reads(fields.last()) {
        assert forall|i: int| 0 <= i < fields.len() implies value_reads(#[trigger] fields[i]) by {
            if i < d.len() {
                assert(d[i] == fields[i]);
            }
        }
    }
    if fields_valid(fields) {
        assert forall|i: int| 0 <= i < d.len() implies value_reads(#[trigger] d[i]) by {
            assert(d[i] == fields[i]);
        }
        assert(value_reads(fields[fields.len() - 1]));
    }
}

proof fn lemma_filter_keeps_fields(fields: Seq<(String, String)>)
    ensures
        fields_valid(fields) == fields_valid(fields.filter(|p: (String, String)| is_recognized(p))),
        forall|label: Seq<char>|
            field_of(label) is Some ==> #[trigger] last_text(fields, label) == last_text(
                fields.filter(|p: (String, String)| is_recognized(p)),
                label,
            ),
    decreases fields.len(),
{
    let pred = |p: (String, String)| is_recognized(p);
    reveal_with_fuel(Seq::filter, 1);
    if fields.len() > 0 {
        let d = fields.drop_last();
        lemma_filter_keeps_fields(d);
        let f = fields.filter(pred);
        lemma_valid_step(fields);
        if pred(fields.last()) {
            assert(f == d.filter(pred).push(fields.last()));
            assert(f.drop_last() =~= d.filter(pred));
            lemma_valid_step(f);
        } else {
            assert(f == d.filter(pred));
        }
        assert forall|label: Seq<char>| field_of(label) is Some implies #[trigger] last_text(
            fields,
            label,
        ) == last_text(f, label) by {
            assert(last_text(d, label) == last_text(d.filter(pred), label));
            if pred(fields.last()) {
                assert(f.last() == fields.last());
            }
        }
    } else {
        assert(fields.filter(pred) =~= fields);
    }
}

/// Pairs under labels that are not recognized change nothing: the entry
/// normalizes as it would without them.
pub proof fn lemma_unknown_labels_ignored(stamp: Option<DateTime>, fields: Seq<(String, String)>)
    ensures
        entry_result(stamp, fields) == entry_result(
            stamp,
            fields.filter(|p: (String, String)| is_recognized(p)),
        ),
{
    lemma_labels_distinct();
    lemma_filter_keeps_fields(fields);
    let f = fields.filter(|p: (String, String)| is_recognized(p));
    assert(last_text(fields, OPEN_LABEL@) == last_text(f, OPEN_LABEL@));
    assert(last_text(fields, HIGH_LABEL@) == last_text(f, HIGH_LABEL@));
    assert(last_text(fields, LOW_LABEL@) == last_text(f, LOW_LABEL@));
    assert(last_text(fields, CLOSE_LABEL@) == last_text(f, CLOSE_LABEL@));
    assert(last_text(fields, VOLUME_LABEL@) == last_text(f, VOLUME_LABEL@));
}

/// A normalized series has one record per raw entry, in non-decreasing
/// order of date, each record one of the raw entries' records, no raw
/// entry used twice.
pub proof fn lemma_chronological(raw: Seq<RawEntry>, v: Seq<SeriesEntry>)
    requires
        is_stable_sort_of(parsed_entries(raw), v),
    ensures
        v.len() == raw.len(),
        sorted_by_date(v),
        exists|perm: Seq<int>|
            {
                &&& perm.len() == v.len()
                &&& forall|k: int|
                    0 <= k < v.len() ==> 0 <= #[trigger] perm[k] < raw.len() && v[k]
                        == raw_entry_result(raw[perm[k]])->Ok_0
                &&& forall|k: int, l: int|
                    0 <= k < l < v.len() ==> #[trigger] perm[k] != #[trigger] perm[l]
            },
{
    let s = parsed_entries(raw);
    let perm = choose|perm: Seq<int>| stable_arrangement(s, v, perm);
    assert forall|k: int, l: int| 0 <= k < l < v.len() implies at_or_before(
        #[trigger] v[k].date,
        #[trigger] v[l].date,
    ) by {
        assert(before(v[k].date, v[l].date) || (v[k].date == v[l].date && perm[k] < perm[l]));
    }
    assert forall|k: int| 0 <= k < v.len() implies 0 <= #[trigger] perm[k] < raw.len() && v[k]
        == raw_entry_result(raw[perm[k]])->Ok_0 by {
        assert(v[k] == s[perm[k]]);
    }
}

pub open spec fn dates_distinct(s: Seq<SeriesEntry>) -> bool {
    forall|i: int, j: int| 0 <= i < j < s.len() ==> (#[trigger] s[i]).date != (#[trigger] s[j]).date
}

pub open spec fn strictly_by_date(s: Seq<SeriesEntry>) -> bool {
    forall|i: int, j: int| 0 <= i < j < s.len() ==> before((#[trigger] s[i]).date, (#[trigger] s[j]).date)
}

proof fn lemma_strictly_sorted_unique(x: Seq<SeriesEntry>, y: Seq<SeriesEntry>)
    requires
        strictly_by_date(x),
        strictly_by_date(y),
        x.to_multiset() == y.to_multiset(),
    ensures
        x == y,
    decreases x.len(),
{
    broadcast use vstd::seq_lib::group_to_multiset_ensures;
    broadcast use vstd::multiset::group_multiset_axioms;

    x.to_multiset_ensures();
    y.to_multiset_ensures();
    if x.len() == 0 || y.len() == 0 {
        assert(x.len() == y.len());
        assert(x =~= y);
    } else {
        assert(x.to_multiset().count(y[0]) > 0);
        assert(y.to_multiset().count(x[0]) > 0);
        let i = choose|i: int| 0 <= i < x.len() && x[i] == y[0];
        let j = choose|j: int| 0 <= j < y.len() && y[j] == x[0];
        if i > 0 {
            assert(before(x[0].date, x[i].date));
            if j > 0 {
                assert(before(y[0].date, y[j].date));
                lemma_before_total(x[0].date, y[0].date);
            }
        }
        assert(x[0] == y[0]);
        assert(x.drop_first() =~= x.remove(0));
        assert(y.drop_first() =~= y.remove(0));
        lemma_strictly_sorted_unique(x.drop_first(), y.drop_first());
        assert(x.len() == y.len());
        assert forall|k: int| 0 <= k < x.len() implies x[k] == y[k] by {
            if k > 0 {
                assert(x[k] == x.drop_first()[k - 1]);
                assert(y[k] == y.drop_first()[k - 1]);
            }
        }
        assert(x =~= y);
    }
}

proof fn lemma_distinct_sorts_strictly(s: Seq<SeriesEntry>, r: Seq<SeriesEntry>)
    requires
        is_stable_sort_of(s, r),
        dates_distinct(s),
    ensures
        strictly_by_date(r),
{
    let perm = choose|perm: Seq<int>| stable_arrangement(s, r, perm);
    assert forall|k: int, l: int| 0 <= k < l < r.len() implies before(
        (#[trigger] r[k]).date,
        (#[trigger] r[l]).date,
    ) by {
        assert(r[k] == s[perm[k]]);
        assert(r[l] == s[perm[l]]);
        assert(perm[k] != perm[l]);
        if perm[k] < perm[l] {
            assert(s[perm[k]].date != s[perm[l]].date);
        } else {
            assert(s[perm[l]].date != s[perm[k]].date);
        }
    }
}

/// Where dates are pairwise distinct, the sorted series does not depend on
/// the order in which the records came: the same records in any order sort
/// to the same series.
pub proof fn lemma_order_independent(
    s1: Seq<SeriesEntry>,
    s2: Seq<SeriesEntry>,
    r1: Seq<SeriesEntry>,
    r2: Seq<SeriesEntry>,
)
    requires
        s1.to_multiset() == s2.to_multiset(),
        dates_distinct(s1),
        dates_distinct(s2),
        is_stable_sort_of(s1, r1),
        is_stable_sort_of(s2, r2),
    ensures
        r1 == r2,
{
    lemma_distinct_sorts_strictly(s1, r1);
    lemma_distinct_sorts_strictly(s2, r2);
    lemma_strictly_sorted_unique(r1, r2);
}

} // verus!
