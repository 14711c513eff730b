//! Rows of the CIC intrusion-detection CSV exports: timestamps, labels,
//! parsed records, and the reader that turns a file's rows into records.
use crate::text::{
    count_value, parse_count, parse_signed, parse_unsigned, signed_value, unsigned_value, within,
};
use chrono::NaiveDateTime;
use vstd::prelude::*;

verus! {

#[verifier::external_type_specification]
#[verifier::external_body]
pub struct ExNaiveDateTime(chrono::NaiveDateTime);

/// What `chrono::NaiveDateTime::parse_from_str` gives for text `s` under format `fmt`.
pub uninterp spec fn parsed_datetime(s: Seq<char>, fmt: Seq<char>) -> Option<NaiveDateTime>;

/// What chrono renders for a date-time under `%Y-%m-%d %H:%M:%S%.3f`.
pub uninterp spec fn datetime_text(t: NaiveDateTime) -> Seq<char>;

/// What `str::trim` leaves of `s`.
pub uninterp spec fn trimmed(s: Seq<char>) -> Seq<char>;

/// Relies on `chrono::NaiveDateTime::parse_from_str`: a date-time read from
/// `s` under the strftime format `fmt`, or nothing where `s` does not fit it.
#[verifier::external_body]
fn parse_datetime(s: &str, fmt: &str) -> (r: Option<NaiveDateTime>)
    ensures
        r == parsed_datetime(s@, fmt@),
{
    NaiveDateTime::parse_from_str(s, fmt).ok()
}

/// Relies on `chrono::NaiveDateTime::format` with a fixed, valid format and
/// its `Display`: the text depends on the date-time alone.
#[verifier::external_body]
fn render_datetime(t: &NaiveDateTime) -> (r: String)
    ensures
        r@ == datetime_text(*t),
{
    t.format("%Y-%m-%d %H:%M:%S%.3f").to_string()
}

/// Relies on `str::trim`: `s` without leading and trailing whitespace.
#[verifier::external_body]
fn trim_text(s: &str) -> (r: String)
    ensures
        r@ == trimmed(s@),
{
    s.trim().to_string()
}

/// Why a file's rows could not be turned into records.
#[derive(Clone, Copy, Debug, PartialEq, Eq, Structural)]
pub enum CicError {
    /// A row without the expected number of columns (the one at this row number).
    MalformedRow(usize),
    /// A numeric field (the one at this column) that does not read as a number.
    NumericParseFailure(usize),
    /// A timestamp in none of the known formats.
    UnrecognizedTimestampFormat,
    /// More distinct labels than an 8-bit index can number.
    TooManyLabels,
    /// The file could not be read or written.
    IoFailure,
}

/// A flow's start time, to the microsecond, without a time zone.
#[derive(Clone, Copy, Debug)]
pub struct FlowTimeStamp {
    pub time: NaiveDateTime,
}

impl FlowTimeStamp {
    /// The time as `YYYY-MM-DD hh:mm:ss.mmm`.
    pub fn to_text(&self) -> (r: String)
        ensures
            r@ == datetime_text(self.time),
    {
        render_datetime(&self.time)
    }
}

/// The number of timestamp renderings that are recognised.
pub const N_TIME_FORMATS: usize = 6;

/// The known renderings, in the order in which they are tried.
pub open spec fn time_format_text(i: int) -> Seq<char> {
    if i == 0 {
        "%d/%m/%Y %I:%M %P"@
    } else if i == 1 {
        "%d/%m/%Y %I:%M:%S %P"@
    } else if i == 2 {
        "%d/%m/%Y %I:%M:%S%.6f %P"@
    } else if i == 3 {
        "%d/%m/%Y %H:%M"@
    } else if i == 4 {
        "%d/%m/%Y %H:%M:%S"@
    } else {
        "%d/%m/%Y %H:%M:%S%.6f"@
    }
}

fn time_format(i: usize) -> (r: &'static str)
    requires
        i < N_TIME_FORMATS,
    ensures
        r@ == time_format_text(i as int),
{
    match i {
        0 => "%d/%m/%Y %I:%M %P",
        1 => "%d/%m/%Y %I:%M:%S %P",
        2 => "%d/%m/%Y %I:%M:%S%.6f %P",
        3 => "%d/%m/%Y %H:%M",
        4 => "%d/%m/%Y %H:%M:%S",
        _ => "%d/%m/%Y %H:%M:%S%.6f",
    }
}

/// The timestamp text with the AM/PM marker that the hint asks for.
pub open spec fn with_hint(s: Seq<char>, is_am: Option<bool>) -> Seq<char> {
    match is_am {
        Some(true) => s + " am"@,
        Some(false) => s + " pm"@,
        None => s,
    }
}

/// The first format at or after `i`, other than `skip`, under which `t` parses.
pub open spec fn first_format_from(t: Seq<char>, skip: int, i: int) -> Option<int>
    decreases N_TIME_FORMATS - i,
{
    if i >= N_TIME_FORMATS {
        None
    } else if i != skip && parsed_datetime(t, time_format_text(i)) is Some {
        Some(i)
    } else {
        first_format_from(t, skip, i + 1)
    }
}

/// The timestamp read from `raw` with a hint and a guessed format: the guess
/// first, then the others in order; with the format that matched.
pub open spec fn timestamp_result(raw: Seq<char>, is_am: Option<bool>, guess: int) -> Result<
    (FlowTimeStamp, usize),
    CicError,
> {
    let t = with_hint(raw, is_am);
    match parsed_datetime(t, time_format_text(guess)) {
        Some(d) => Ok((FlowTimeStamp { time: d }, guess as usize)),
        None => match first_format_from(t, guess, 0) {
            Some(j) => Ok((FlowTimeStamp { time: parsed_datetime(t, time_format_text(j))->0 }, j as usize)),
            None => Err(CicError::UnrecognizedTimestampFormat),
        },
    }
}

/// Reads a timestamp (see `timestamp_result`). Feeding the format that
/// matched back as the next guess keeps a homogeneous file on one attempt
/// per row.
pub fn str_to_timestamp(cic_timestamp_str: &str, is_am: &Option<bool>, guessed_time_format_index: usize) -> (r: Result<
    (FlowTimeStamp, usize),
    CicError,
>)
    requires
        guessed_time_format_index < N_TIME_FORMATS,
    ensures
        r == timestamp_result(cic_timestamp_str@, *is_am, guessed_time_format_index as int),
        r is Ok ==> r->Ok_0.1 < N_TIME_FORMATS,
{
    let guess = guessed_time_format_index;
    let mut time_str = String::from_str(cic_timestamp_str);
    proof {
        reveal_strlit(" am");
        reveal_strlit(" pm");
    }
    match is_am {
        Some(true) => time_str.append(" am"),
        Some(false) => time_str.append(" pm"),
        None => {},
    }
    let ghost t = with_hint(cic_timestamp_str@, *is_am);
    assert(time_str@ == t);
    if let Some(time) = parse_datetime(time_str.as_str(), time_format(guess)) {
        return Ok((FlowTimeStamp { time }, guess));
    }
    let mut i: usize = 0;
    while i < N_TIME_FORMATS
        invariant
            i <= N_TIME_FORMATS,
            time_str@ == t,
            t == with_hint(cic_timestamp_str@, *is_am),
            guess == guessed_time_format_index < N_TIME_FORMATS,
            parsed_datetime(t, time_format_text(guess as int)) is None,
            first_format_from(t, guess as int, 0) == first_format_from(t, guess as int, i as int),
        decreases N_TIME_FORMATS - i,
    {
        if i != guess {
            let f = time_format(i);
            let attempt = parse_datetime(time_str.as_str(), f);
            if let Some(time) = attempt {
                return Ok((FlowTimeStamp { time }, i));
            }
        }
        i = i + 1;
    }
    Err(CicError::UnrecognizedTimestampFormat)
}

/// A traffic class: its name as written in the data, and its index
/// (0 before indexing, 1 for the benign label, 2 and up in order of first
/// appearance).
#[derive(Clone, Debug, PartialEq, Eq, Hash)]
pub struct Label {
    pub index: u8,
    pub name: String,
}

impl Label {
    pub fn index(&self) -> (r: u8)
        ensures
            r == self.index,
    {
        self.index
    }

    /// Sets the index.
    pub fn index_mut(&mut self, index: u8)
        ensures
            final(self).index == index,
            final(self).name == old(self).name,
    {
        self.index = index;
    }

    pub fn name(&self) -> (r: &String)
        ensures
            r == self.name,
    {
        &self.name
    }

    /// A copy of this label.
    pub fn duplicate(&self) -> (r: Label)
        ensures
            r == *self,
    {
        Label { index: self.index, name: self.name.clone() }
    }
}


/// The number of columns of a well-formed row.
pub const N_COLUMNS: usize = 85;

/// Largest packet or byte count in a single column.
pub const MAX_COUNT: u64 = 0xffff_ffff;

pub open spec fn port_value(s: Seq<char>) -> Option<u64> {
    within(unsigned_value(s), 0xffff_ffff)
}

pub open spec fn protocol_value(s: Seq<char>) -> Option<u64> {
    within(unsigned_value(s), 0xff)
}

pub open spec fn duration_value(s: Seq<char>) -> Option<i64> {
    match signed_value(s) {
        Some(v) => if i64::MIN <= v <= i64::MAX { Some(v as i64) } else { None },
        None => None,
    }
}

pub open spec fn count_field(s: Seq<char>) -> Option<u64> {
    within(count_value(s), MAX_COUNT)
}

/// The first numeric column of a row that does not read, in reading order:
/// ports, protocol, duration, then the packet and byte counts.
pub open spec fn bad_column(f: Seq<String>) -> Option<usize> {
    if port_value(f[2]@) is None {
        Some(2)
    } else if port_value(f[4]@) is None {
        Some(4)
    } else if protocol_value(f[5]@) is None {
        Some(5)
    } else if duration_value(f[7]@) is None {
        Some(7)
    } else if count_field(f[8]@) is None {
        Some(8)
    } else if count_field(f[40]@) is None {
        Some(40)
    } else if count_field(f[9]@) is None {
        Some(9)
    } else if count_field(f[41]@) is None {
        Some(41)
    } else if count_field(f[10]@) is None {
        Some(10)
    } else if count_field(f[11]@) is None {
        Some(11)
    } else {
        None
    }
}

/// Why a row does not parse, if it does not: its timestamp, then its
/// numeric columns.
pub open spec fn row_error(f: Seq<String>, is_am: Option<bool>, guess: int) -> Option<CicError> {
    match timestamp_result(trimmed(f[6]@), is_am, guess) {
        Err(e) => Some(e),
        Ok(_) => match bad_column(f) {
            Some(c) => Some(CicError::NumericParseFailure(c)),
            None => None,
        },
    }
}

/// The format that a row's timestamp matched, given the guess.
pub open spec fn row_format(f: Seq<String>, is_am: Option<bool>, guess: int) -> usize {
    match timestamp_result(trimmed(f[6]@), is_am, guess) {
        Ok((_, i)) => i,
        Err(_) => 0,
    }
}

/// A CSV row as read into a record; its label not yet indexed.
pub open spec fn row_fields(r: CICRecord, f: Seq<String>, is_am: Option<bool>, guess: int) -> bool {
    &&& timestamp_result(trimmed(f[6]@), is_am, guess) == Ok::<(FlowTimeStamp, usize), CicError>(
        (r.timestamp, row_format(f, is_am, guess)),
    )
    &&& r.src_ip@ == trimmed(f[1]@)
    &&& r.src_port as u64 == port_value(f[2]@)->0
    &&& r.dst_ip@ == trimmed(f[3]@)
    &&& r.dst_port as u64 == port_value(f[4]@)->0
    &&& r.protocol as u64 == protocol_value(f[5]@)->0
    &&& r.duration == duration_value(f[7]@)->0
    &&& r.n_packet@ == seq![
        (count_field(f[8]@)->0 + count_field(f[40]@)->0) as u64,
        (count_field(f[9]@)->0 + count_field(f[41]@)->0) as u64,
    ]
    &&& r.n_bytes_packet@ == seq![count_field(f[10]@)->0, count_field(f[11]@)->0]
    &&& r.label.name@ == trimmed(f[84]@)
}

/// One row of a CIC CSV export. Duration is in microseconds and may be
/// negative in malformed data; counts are indexed forward (0) and
/// backward (1).
#[derive(Clone, Debug)]
pub struct CICRecord {
    pub src_ip: String,
    pub src_port: u32,
    pub dst_ip: String,
    pub dst_port: u32,
    pub protocol: u8,
    pub timestamp: FlowTimeStamp,
    pub duration: i64,
    pub n_packet: [u64; 2],
    pub n_bytes_packet: [u64; 2],
    pub label: Label,
}

impl CICRecord {
    /// Reads a row of `N_COLUMNS` fields, trying the guessed timestamp
    /// format first; gives the record and the format that matched.
    pub fn from_ids_csv(record: &Vec<String>, is_am: &Option<bool>, guessed_time_format_index: usize) -> (r: Result<
        (CICRecord, usize),
        CicError,
    >)
        requires
            record@.len() == N_COLUMNS,
            guessed_time_format_index < N_TIME_FORMATS,
        ensures
            match r {
                Ok((rec, i)) => row_error(record@, *is_am, guessed_time_format_index as int) is None
                    && i == row_format(record@, *is_am, guessed_time_format_index as int)
                    && i < N_TIME_FORMATS
                    && row_fields(rec, record@, *is_am, guessed_time_format_index as int)
                    && rec.label.index == 0,
                Err(e) => row_error(record@, *is_am, guessed_time_format_index as int) == Some(e),
            },
    {
        let ts_text = trim_text(record[6].as_str());
        let (timestamp, actual) = match str_to_timestamp(ts_text.as_str(), is_am, guessed_time_format_index) {
            Ok(p) => p,
            Err(e) => return Err(e),
        };
        let src_port = match parse_unsigned(record[2].as_str(), 0xffff_ffff) {
            Some(v) => v as u32,
            None => return Err(CicError::NumericParseFailure(2)),
        };
        let dst_port = match parse_unsigned(record[4].as_str(), 0xffff_ffff) {
            Some(v) => v as u32,
            None => return Err(CicError::NumericParseFailure(4)),
        };
        let protocol = match parse_unsigned(record[5].as_str(), 0xff) {
            Some(v) => v as u8,
            None => return Err(CicError::NumericParseFailure(5)),
        };
        let duration = match parse_signed(record[7].as_str()) {
            Some(v) => v,
            None => return Err(CicError::NumericParseFailure(7)),
        };
        let fwd_a = match parse_count(record[8].as_str(), MAX_COUNT) {
            Some(v) => v,
            None => return Err(CicError::NumericParseFailure(8)),
        };
        let fwd_b = match parse_count(record[40].as_str(), MAX_COUNT) {
            Some(v) => v,
            None => return Err(CicError::NumericParseFailure(40)),
        };
        let bwd_a = match parse_count(record[9].as_str(), MAX_COUNT) {
            Some(v) => v,
            None => return Err(CicError::NumericParseFailure(9)),
        };
        let bwd_b = match parse_count(record[41].as_str(), MAX_COUNT) {
            Some(v) => v,
            None => return Err(CicError::NumericParseFailure(41)),
        };
        let fwd_bytes = match parse_count(record[10].as_str(), MAX_COUNT) {
            Some(v) => v,
            None => return Err(CicError::NumericParseFailure(10)),
        };
        let bwd_bytes = match parse_count(record[11].as_str(), MAX_COUNT) {
            Some(v) => v,
            None => return Err(CicError::NumericParseFailure(11)),
        };
        let rec = CICRecord {
            src_ip: trim_text(record[1].as_str()),
            src_port,
            dst_ip: trim_text(record[3].as_str()),
            dst_port,
            protocol,
            timestamp,
            duration,
            n_packet: [fwd_a + fwd_b, bwd_a + bwd_b],
            n_bytes_packet: [fwd_bytes, bwd_bytes],
            label: Label { index: 0, name: trim_text(record[84].as_str()) },
        };
        Ok((rec, actual))
    }

    pub fn src_ip(&self) -> (r: &String)
        ensures
            r == self.src_ip,
    {
        &self.src_ip
    }

    pub fn src_port(&self) -> (r: &u32)
        ensures
            *r == self.src_port,
    {
        &self.src_port
    }

    pub fn dst_ip(&self) -> (r: &String)
        ensures
            r == self.dst_ip,
    {
        &self.dst_ip
    }

    pub fn dst_port(&self) -> (r: &u32)
        ensures
            *r == self.dst_port,
    {
        &self.dst_port
    }

    pub fn protocol(&self) -> (r: &u8)
        ensures
            *r == self.protocol,
    {
        &self.protocol
    }

    pub fn timestamp(&self) -> (r: &FlowTimeStamp)
        ensures
            *r == self.timestamp,
    {
        &self.timestamp
    }

    /// The duration in microseconds.
    pub fn duration(&self) -> (r: &i64)
        ensures
            *r == self.duration,
    {
        &self.duration
    }

    pub fn n_packet(&self) -> (r: &[u64; 2])
        ensures
            *r == self.n_packet,
    {
        &self.n_packet
    }

    pub fn n_bytes_packet(&self) -> (r: &[u64; 2])
        ensures
            *r == self.n_bytes_packet,
    {
        &self.n_bytes_packet
    }

    pub fn label(&self) -> (r: &Label)
        ensures
            *r == self.label,
    {
        &self.label
    }

    /// Sets the label's index.
    pub fn label_mut(&mut self, index: u8)
        ensures
            final(self).label.index == index,
            final(self).label.name == old(self).label.name,
            final(self).src_ip == old(self).src_ip,
            final(self).src_port == old(self).src_port,
            final(self).dst_ip == old(self).dst_ip,
            final(self).dst_port == old(self).dst_port,
            final(self).protocol == old(self).protocol,
            final(self).timestamp == old(self).timestamp,
            final(self).duration == old(self).duration,
            final(self).n_packet == old(self).n_packet,
            final(self).n_bytes_packet == old(self).n_bytes_packet,
    {
        self.label.index_mut(index);
    }
}


/// Label names in index order: the benign name first, then each other name
/// at its first appearance in `names`.
pub open spec fn label_order(benign: Seq<char>, names: Seq<Seq<char>>) -> Seq<Seq<char>>
    decreases names.len(),
{
    if names.len() == 0 {
        seq![benign]
    } else {
        let prev = label_order(benign, names.drop_last());
        if prev.contains(names.last()) {
            prev
        } else {
            prev.push(names.last())
        }
    }
}

/// The map from label name to index: the name at position `i` has index `i + 1`.
pub struct LabelLibrary {
    pub names: Vec<String>,
}

impl View for LabelLibrary {
    type V = Seq<Seq<char>>;

    open spec fn view(&self) -> Seq<Seq<char>> {
        self.names@.map_values(|s: String| s@)
    }
}

/// Largest number of labels that an 8-bit index can number.
pub const MAX_LABELS: usize = 255;

impl LabelLibrary {
    /// A library that holds the benign label alone, at index 1.
    pub fn new(benign_label_name: &String) -> (r: LabelLibrary)
        ensures
            r@ == seq![benign_label_name@],
    {
        let mut names: Vec<String> = Vec::new();
        names.push(benign_label_name.clone());
        let r = LabelLibrary { names };
        assert(r@ =~= seq![benign_label_name@]);
        r
    }

    /// The number of labels.
    pub fn len(&self) -> (r: usize)
        ensures
            r == self@.len(),
    {
        self.names.len()
    }

    /// The name of the label with index `index`.
    pub fn name(&self, index: u8) -> (r: &String)
        requires
            1 <= index <= self@.len(),
        ensures
            r@ == self@[index - 1],
    {
        &self.names[index as usize - 1]
    }

    /// The index of `name`, if it has one.
    pub fn index_of(&self, name: &String) -> (r: Option<u8>)
        requires
            self@.len() <= MAX_LABELS,
        ensures
            match r {
                Some(k) => 1 <= k <= self@.len() && self@[k - 1] == name@,
                None => !self@.contains(name@),
            },
    {
        let mut i: usize = 0;
        while i < self.names.len()
            invariant
                i <= self.names@.len() <= MAX_LABELS,
                forall|j: int| 0 <= j < i ==> self@[j] != name@,
            decreases self.names@.len() - i,
        {
            if self.names[i] == *name {
                return Some((i + 1) as u8);
            }
            i = i + 1;
        }
        None
    }
}

/// Gives the record's label its index, adding the name to the library at
/// the next index when it is new.
pub fn update_label_and_index_mut(label_map: &mut LabelLibrary, cic_record: &mut CICRecord) -> (r: Result<(), CicError>)
    requires
        old(label_map)@.len() <= MAX_LABELS,
    ensures
        final(label_map)@.len() <= MAX_LABELS,
        final(cic_record).label.name == old(cic_record).label.name,
        row_fields_kept(*old(cic_record), *final(cic_record)),
        r is Err <==> (!old(label_map)@.contains(old(cic_record).label.name@) && old(label_map)@.len() == MAX_LABELS),
        r is Err ==> r == Err::<(), CicError>(CicError::TooManyLabels) && final(label_map)@ == old(label_map)@,
        r is Ok ==> final(label_map)@ == (if old(label_map)@.contains(old(cic_record).label.name@) {
            old(label_map)@
        } else {
            old(label_map)@.push(old(cic_record).label.name@)
        }),
        r is Ok ==> 1 <= final(cic_record).label.index <= final(label_map)@.len(),
        r is Ok ==> final(label_map)@[final(cic_record).label.index - 1] == final(cic_record).label.name@,
{
    match label_map.index_of(&cic_record.label.name) {
        Some(index) => {
            cic_record.label_mut(index);
            Ok(())
        },
        None => {
            if label_map.names.len() >= MAX_LABELS {
                return Err(CicError::TooManyLabels);
            }
            let index: u8 = (label_map.names.len() + 1) as u8;
            label_map.names.push(cic_record.label.name.clone());
            assert(label_map@ =~= old(label_map)@.push(old(cic_record).label.name@));
            cic_record.label_mut(index);
            Ok(())
        },
    }
}

/// All but the label index of `b` is as in `a`.
pub open spec fn row_fields_kept(a: CICRecord, b: CICRecord) -> bool {
    &&& b.label.name == a.label.name
    &&& b.src_ip == a.src_ip
    &&& b.src_port == a.src_port
    &&& b.dst_ip == a.dst_ip
    &&& b.dst_port == a.dst_port
    &&& b.protocol == a.protocol
    &&& b.timestamp == a.timestamp
    &&& b.duration == a.duration
    &&& b.n_packet == a.n_packet
    &&& b.n_bytes_packet == a.n_bytes_packet
}


/// The rows of `N_COLUMNS` fields, in order.
pub open spec fn kept_rows(rows: Seq<Vec<String>>) -> Seq<Seq<String>>
    decreases rows.len(),
{
    if rows.len() == 0 {
        seq![]
    } else {
        let prev = kept_rows(rows.drop_last());
        if rows.last()@.len() == N_COLUMNS {
            prev.push(rows.last()@)
        } else {
            prev
        }
    }
}

/// The positions of the rows that do not have `N_COLUMNS` fields.
pub open spec fn skipped_rows(rows: Seq<Vec<String>>) -> Seq<usize>
    decreases rows.len(),
{
    if rows.len() == 0 {
        seq![]
    } else {
        let prev = skipped_rows(rows.drop_last());
        if rows.last()@.len() == N_COLUMNS {
            prev
        } else {
            prev.push((rows.len() - 1) as usize)
        }
    }
}

/// The format guessed for kept row `j`: the one that the row before it
/// matched, starting from the first.
pub open spec fn guess_at(kept: Seq<Seq<String>>, is_am: Option<bool>, j: int) -> int
    decreases j,
{
    if j <= 0 || j > kept.len() {
        0
    } else {
        row_format(kept[j - 1], is_am, guess_at(kept, is_am, j - 1)) as int
    }
}

/// The label names of the kept rows.
pub open spec fn row_label_names(kept: Seq<Seq<String>>) -> Seq<Seq<char>> {
    kept.map_values(|f: Seq<String>| trimmed(f[84]@))
}

proof fn lemma_guess_prefix(kept: Seq<Seq<String>>, more: Seq<Seq<String>>, is_am: Option<bool>, j: int)
    requires
        0 <= j <= kept.len(),
    ensures
        guess_at(kept + more, is_am, j) == guess_at(kept, is_am, j),
    decreases j,
{
    if j > 0 {
        lemma_guess_prefix(kept, more, is_am, j - 1);
        assert((kept + more)[j - 1] == kept[j - 1]);
    }
}

proof fn lemma_kept_split(rows: Seq<Vec<String>>, k: int)
    requires
        0 <= k <= rows.len(),
    ensures
        kept_rows(rows) == kept_rows(rows.take(k)) + kept_rows(rows.skip(k)),
    decreases rows.len(),
{
    if k == rows.len() {
        assert(rows.take(k) =~= rows);
        assert(rows.skip(k) =~= seq![]);
        assert(kept_rows(rows) =~= kept_rows(rows) + seq![]);
    } else {
        lemma_kept_split(rows.drop_last(), k);
        assert(rows.drop_last().take(k) =~= rows.take(k));
        assert(rows.skip(k).drop_last() =~= rows.drop_last().skip(k));
        assert(rows.skip(k).last() == rows.last());
        if rows.last()@.len() == N_COLUMNS {
            assert(kept_rows(rows) =~= kept_rows(rows.take(k)) + kept_rows(rows.skip(k)));
        }
    }
}

proof fn lemma_label_order_prefix(benign: Seq<char>, names: Seq<Seq<char>>, k: int)
    requires
        0 <= k <= names.len(),
    ensures
        label_order(benign, names.take(k)).len() <= label_order(benign, names).len(),
    decreases names.len(),
{
    if k < names.len() {
        assert(names.drop_last().take(k) =~= names.take(k));
        lemma_label_order_prefix(benign, names.drop_last(), k);
    } else {
        assert(names.take(k) =~= names);
    }
}

/// Reads a file's data rows (header excluded): rows without `N_COLUMNS`
/// fields are skipped and their positions given back; each kept row becomes
/// a record, its timestamp tried first in the format that the kept row
/// before it matched; labels are indexed in order of first appearance, the
/// benign label at 1.
#[verifier::rlimit(40)]
pub fn read_ids_rows(rows: &Vec<Vec<String>>, is_am: &Option<bool>, benign_label_name: &String) -> (r: Result<
    (Vec<CICRecord>, LabelLibrary, Vec<usize>),
    CicError,
>)
    ensures
        ({
            let kept = kept_rows(rows@);
            let all_rows_read = forall|j: int|
                0 <= j < kept.len() ==> #[trigger] row_error(kept[j], *is_am, guess_at(kept, *is_am, j)) is None;
            &&& r is Ok <==> all_rows_read && label_order(benign_label_name@, row_label_names(kept)).len() <= MAX_LABELS
            &&& r is Err ==> r->Err_0 == CicError::TooManyLabels || exists|j: int|
                0 <= j < kept.len() && #[trigger] row_error(kept[j], *is_am, guess_at(kept, *is_am, j)) == Some(r->Err_0)
            &&& r is Ok ==> {
                let (recs, labels, skipped) = r->Ok_0;
                &&& skipped@ == skipped_rows(rows@)
                &&& recs@.len() == kept.len()
                &&& labels@ == label_order(benign_label_name@, row_label_names(kept))
                &&& forall|j: int| 0 <= j < kept.len() ==> {
                    &&& row_fields(#[trigger] recs@[j], kept[j], *is_am, guess_at(kept, *is_am, j))
                    &&& 1 <= recs@[j].label.index <= labels@.len()
                    &&& labels@[recs@[j].label.index - 1] == recs@[j].label.name@
                }
            }
        }),
{
    let mut label_map = LabelLibrary::new(benign_label_name);
    let mut storage: Vec<CICRecord> = Vec::new();
    let mut skipped: Vec<usize> = Vec::new();
    let mut time_format_index: usize = 0;
    let mut i: usize = 0;
    assert(rows@.take(0) =~= seq![]);
    assert(row_label_names(seq![]) =~= seq![]);
    while i < rows.len()
        invariant
            i <= rows@.len(),
            time_format_index < N_TIME_FORMATS,
            ({
                let kept = kept_rows(rows@.take(i as int));
                &&& storage@.len() == kept.len()
                &&& time_format_index == guess_at(kept, *is_am, kept.len() as int)
                &&& skipped@ == skipped_rows(rows@.take(i as int))
                &&& label_map@ == label_order(benign_label_name@, row_label_names(kept))
                &&& label_map@.len() <= MAX_LABELS
                &&& forall|j: int| 0 <= j < kept.len() ==> {
                    &&& #[trigger] row_error(kept[j], *is_am, guess_at(kept, *is_am, j)) is None
                    &&& row_fields(storage@[j], kept[j], *is_am, guess_at(kept, *is_am, j))
                    &&& 1 <= storage@[j].label.index <= label_map@.len()
                    &&& label_map@[storage@[j].label.index - 1] == storage@[j].label.name@
                }
            }),
        decreases rows@.len() - i,
    {
        let ghost kept = kept_rows(rows@.take(i as int));
        assert(rows@.take(i + 1).drop_last() =~= rows@.take(i as int));
        let row = &rows[i];
        assert(rows@.take(i + 1).last() == rows@[i as int]);
        if row.len() != N_COLUMNS {
            assert(kept_rows(rows@.take(i + 1)) == kept);
            assert(skipped_rows(rows@.take(i + 1)) == skipped_rows(rows@.take(i as int)).push(i));
            skipped.push(i);
            i = i + 1;
            continue;
        }
        let ghost kept2 = kept.push(row@);
        assert(kept_rows(rows@.take(i + 1)) == kept2);
        let ghost whole = kept_rows(rows@);
        proof {
            assert(kept2 =~= kept + seq![row@]);
            assert forall|j: int| 0 <= j <= kept.len() implies guess_at(kept2, *is_am, j) == guess_at(kept, *is_am, j) by {
                lemma_guess_prefix(kept, seq![row@], *is_am, j);
            }
            lemma_kept_split(rows@, i + 1);
            lemma_guess_prefix(kept2, kept_rows(rows@.skip(i + 1)), *is_am, kept.len() as int);
            assert(whole[kept.len() as int] == kept2[kept.len() as int]);
            assert(row_label_names(whole).take(kept2.len() as int) =~= row_label_names(kept2));
            lemma_label_order_prefix(benign_label_name@, row_label_names(whole), kept2.len() as int);
            assert(row_label_names(kept2) =~= row_label_names(kept).push(trimmed(row@[84]@)));
            assert(row_label_names(kept2).drop_last() =~= row_label_names(kept));
            assert(skipped_rows(rows@.take(i + 1)) == skipped_rows(rows@.take(i as int)));
        }
        let (mut rec, next) = match CICRecord::from_ids_csv(row, is_am, time_format_index) {
            Ok(p) => p,
            Err(e) => {
                assert(row_error(whole[kept.len() as int], *is_am, guess_at(whole, *is_am, kept.len() as int)) == Some(e));
                return Err(e);
            },
        };
        let ghost before = rec;
        let ghost lib_before = label_map@;
        match update_label_and_index_mut(&mut label_map, &mut rec) {
            Ok(()) => {},
            Err(e) => {
                assert(label_order(benign_label_name@, row_label_names(kept2)).len() > MAX_LABELS);
                return Err(e);
            },
        }
        assert(row_fields(rec, row@, *is_am, time_format_index as int));
        storage.push(rec);
        assert(guess_at(kept2, *is_am, kept2.len() as int) == next);
        assert(label_map@ == label_order(benign_label_name@, row_label_names(kept2)));
        time_format_index = next;
        i = i + 1;
        proof {
            assert forall|j: int| 0 <= j < kept2.len() implies {
                &&& #[trigger] row_error(kept2[j], *is_am, guess_at(kept2, *is_am, j)) is None
                &&& row_fields(storage@[j], kept2[j], *is_am, guess_at(kept2, *is_am, j))
                &&& 1 <= storage@[j].label.index <= label_map@.len()
                &&& label_map@[storage@[j].label.index - 1] == storage@[j].label.name@
            } by {
                if j < kept.len() {
                    assert(kept2[j] == kept[j]);
                    assert(label_map@[storage@[j].label.index - 1] == lib_before[storage@[j].label.index - 1]);
                }
            }
        }
    }
    assert(rows@.take(rows@.len() as int) =~= rows@);
    let ghost kept = kept_rows(rows@);
    assert forall|j: int| 0 <= j < kept.len() implies {
        &&& row_fields(#[trigger] storage@[j], kept[j], *is_am, guess_at(kept, *is_am, j))
        &&& 1 <= storage@[j].label.index <= label_map@.len()
        &&& label_map@[storage@[j].label.index - 1] == storage@[j].label.name@
    } by {
        assert(row_error(kept[j], *is_am, guess_at(kept, *is_am, j)) is None);
    }
    Ok((storage, label_map, skipped))
}


/// Label indexing: the benign name takes index 1 and every other name that
/// occurs takes exactly one later index, so a label is at index 1 exactly
/// when its name is the benign one.
pub proof fn label_order_laws(benign: Seq<char>, names: Seq<Seq<char>>)
    ensures
        label_order(benign, names).len() >= 1,
        label_order(benign, names)[0] == benign,
        label_order(benign, names).no_duplicates(),
        forall|j: int| 0 <= j < names.len() ==> label_order(benign, names).contains(#[trigger] names[j]),
        forall|k: int|
            1 <= k < label_order(benign, names).len() ==> names.contains(#[trigger] label_order(benign, names)[k]),
        forall|k: int|
            0 <= k < label_order(benign, names).len() ==> (k == 0 <==> #[trigger] label_order(benign, names)[k] == benign),
    decreases names.len(),
{
    let order = label_order(benign, names);
    if names.len() > 0 {
        let rest = names.drop_last();
        label_order_laws(benign, rest);
        let prev = label_order(benign, rest);
        assert forall|j: int| 0 <= j < names.len() implies order.contains(#[trigger] names[j]) by {
            if j < names.len() - 1 {
                assert(rest[j] == names[j]);
                let w = choose|w: int| 0 <= w < prev.len() && prev[w] == names[j];
                assert(order[w] == names[j]);
            } else if !prev.contains(names.last()) {
                assert(order[prev.len() as int] == names[j]);
            }
        }
        assert forall|k: int| 1 <= k < order.len() implies names.contains(#[trigger] order[k]) by {
            if k < prev.len() {
                assert(order[k] == prev[k]);
                assert(rest.contains(prev[k]));
                let w = choose|w: int| 0 <= w < rest.len() && rest[w] == prev[k];
                assert(names[w] == prev[k]);
            } else {
                assert(names[names.len() - 1] == order[k]);
            }
        }
        assert forall|k: int| 0 <= k < order.len() implies (k == 0 <==> #[trigger] order[k] == benign) by {
            if k < prev.len() {
                assert(order[k] == prev[k]);
            } else {
                assert(prev[0] == benign);
            }
        }
    } else {
        assert(order.no_duplicates());
    }
}

} // verus!
