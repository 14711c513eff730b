//! Directional NetFlow-style records: one pair per CIC record, a duration
//! column width shared by a whole batch, grouping by label, and the
//! fixed-width text line of each record.
use crate::cic::{datetime_text, CICRecord, FlowTimeStamp, Label, LabelLibrary};
use crate::text::{
    align_left, align_right, decimal, decimal_string, pad_left_aligned, pad_right_aligned,
};
use vstd::prelude::*;

verus! {

/// TCP flags of a flow; the CIC exports do not give them, so all stay unset.
#[derive(Copy, Clone, Debug)]
pub struct Flags {
    pub cwr: bool,
    pub ece: bool,
    pub urg: bool,
    pub ack: bool,
    pub psh: bool,
    pub rst: bool,
    pub syn: bool,
    pub fin: bool,
}

pub open spec fn flag_char(set: bool, c: char) -> char {
    if set { c } else { '.' }
}

pub open spec fn flags_text(f: Flags) -> Seq<char> {
    seq![
        flag_char(f.cwr, 'C'),
        flag_char(f.ece, 'E'),
        flag_char(f.urg, 'U'),
        flag_char(f.ack, 'A'),
        flag_char(f.psh, 'P'),
        flag_char(f.rst, 'R'),
        flag_char(f.syn, 'S'),
        flag_char(f.fin, 'F'),
    ]
}

fn flag_str(set: bool, on: &'static str) -> (r: &'static str)
    requires
        on@.len() == 1,
    ensures
        r@ == seq![flag_char(set, on@[0])],
{
    proof { reveal_strlit("."); }
    if set { on } else { "." }
}

impl Flags {
    /// No flag set.
    pub fn new() -> (r: Flags)
        ensures
            !r.cwr && !r.ece && !r.urg && !r.ack && !r.psh && !r.rst && !r.syn && !r.fin,
    {
        Flags { cwr: false, ece: false, urg: false, ack: false, psh: false, rst: false, syn: false, fin: false }
    }

    /// One char per flag, `CEUAPRSF`, with `.` for an unset one.
    #[verifier::rlimit(40)]
    pub fn to_text(&self) -> (r: String)
        ensures
            r@ == flags_text(*self),
    {
        proof {
            reveal_strlit("C");
            reveal_strlit("E");
            reveal_strlit("U");
            reveal_strlit("A");
            reveal_strlit("P");
            reveal_strlit("R");
            reveal_strlit("S");
            reveal_strlit("F");
        }
        let mut r = String::new();
        assert(r@ =~= seq![]);
        r.append(flag_str(self.cwr, "C"));
        r.append(flag_str(self.ece, "E"));
        r.append(flag_str(self.urg, "U"));
        r.append(flag_str(self.ack, "A"));
        r.append(flag_str(self.psh, "P"));
        r.append(flag_str(self.rst, "R"));
        r.append(flag_str(self.syn, "S"));
        r.append(flag_str(self.fin, "F"));
        assert(r@ =~= flags_text(*self));
        r
    }
}

/// Why a duration was replaced by zero.
#[derive(Clone, Copy, Debug, PartialEq, Eq, Structural)]
pub enum DurationIssue {
    /// The -1 µs that the exports write for an unknown duration.
    Unknown,
    /// A duration below -1 µs (the value, in microseconds): corrupt input.
    Negative(i64),
}

/// A duration in microseconds with negative values replaced by zero.
pub open spec fn clamped(d: i64) -> i64 {
    if d < 0 { 0 } else { d }
}

pub open spec fn issue_of(d: i64) -> Option<DurationIssue> {
    if d == -1 {
        Some(DurationIssue::Unknown)
    } else if d < -1 {
        Some(DurationIssue::Negative(d))
    } else {
        None
    }
}

/// What is wrong with a duration (in microseconds), if anything: the
/// warning that goes with replacing it by zero.
pub fn duration_issue(d: i64) -> (r: Option<DurationIssue>)
    ensures
        r == issue_of(d),
{
    if d == -1 {
        Some(DurationIssue::Unknown)
    } else if d < -1 {
        Some(DurationIssue::Negative(d))
    } else {
        None
    }
}

/// A duration (in microseconds) as a flow carries it: at least zero.
pub fn clamp_duration(d: i64) -> (r: i64)
    ensures
        r == clamped(d),
        r >= 0,
{
    if d < 0 { 0 } else { d }
}

/// One direction of a flow.
#[derive(Clone, Debug)]
pub struct NetFlow {
    pub timestamp: FlowTimeStamp,
    /// Microseconds, never negative.
    pub duration: i64,
    pub duration_str_width: u8,
    pub protocol: u8,
    pub src_ip: String,
    pub src_port: u32,
    pub dst_ip: String,
    pub dst_port: u32,
    pub flags: Flags,
    pub qos: u8,
    pub n_packet: u64,
    pub n_bytes_packet: u64,
    pub n_flow: u32,
    pub label: Label,
}

/// The flow fields that do not depend on direction, as taken from `cr`.
pub open spec fn shared_fields(nf: NetFlow, cr: CICRecord) -> bool {
    &&& nf.timestamp == cr.timestamp
    &&& nf.duration == clamped(cr.duration)
    &&& nf.protocol == cr.protocol
    &&& !nf.flags.cwr && !nf.flags.ece && !nf.flags.urg && !nf.flags.ack
    &&& !nf.flags.psh && !nf.flags.rst && !nf.flags.syn && !nf.flags.fin
    &&& nf.qos == 0
    &&& nf.n_flow == 1
    &&& nf.label == cr.label
}

/// `nf` is the forward direction of `cr`.
pub open spec fn is_forward(nf: NetFlow, cr: CICRecord) -> bool {
    &&& shared_fields(nf, cr)
    &&& nf.src_ip == cr.src_ip && nf.src_port == cr.src_port
    &&& nf.dst_ip == cr.dst_ip && nf.dst_port == cr.dst_port
    &&& nf.n_packet == cr.n_packet@[0]
    &&& nf.n_bytes_packet == cr.n_bytes_packet@[0]
}

/// `nf` is the reverse direction of `cr`.
pub open spec fn is_reverse(nf: NetFlow, cr: CICRecord) -> bool {
    &&& shared_fields(nf, cr)
    &&& nf.src_ip == cr.dst_ip && nf.src_port == cr.dst_port
    &&& nf.dst_ip == cr.src_ip && nf.dst_port == cr.src_port
    &&& nf.n_packet == cr.n_packet@[1]
    &&& nf.n_bytes_packet == cr.n_bytes_packet@[1]
}

/// The whole milliseconds of a duration of `us` microseconds, `us >= 0`.
pub open spec fn ms_of(us: i64) -> nat {
    (us / 1000) as nat
}

impl NetFlow {
    /// The forward and the reverse flow of a record, with the duration set
    /// to zero where it is negative; the column width is left at 0.
    pub fn new(cr: &CICRecord) -> (r: (NetFlow, NetFlow))
        ensures
            is_forward(r.0, *cr),
            is_reverse(r.1, *cr),
            r.0.duration_str_width == 0,
            r.1.duration_str_width == 0,
    {
        let duration = clamp_duration(cr.duration);
        let nf1 = NetFlow {
            timestamp: cr.timestamp,
            duration,
            duration_str_width: 0,
            protocol: cr.protocol,
            src_ip: cr.src_ip.clone(),
            src_port: cr.src_port,
            dst_ip: cr.dst_ip.clone(),
            dst_port: cr.dst_port,
            flags: Flags::new(),
            qos: 0,
            n_packet: cr.n_packet[0],
            n_bytes_packet: cr.n_bytes_packet[0],
            n_flow: 1,
            label: cr.label.duplicate(),
        };
        let nf2 = NetFlow {
            timestamp: cr.timestamp,
            duration,
            duration_str_width: 0,
            protocol: cr.protocol,
            src_ip: cr.dst_ip.clone(),
            src_port: cr.dst_port,
            dst_ip: cr.src_ip.clone(),
            dst_port: cr.src_port,
            flags: Flags::new(),
            qos: 0,
            n_packet: cr.n_packet[1],
            n_bytes_packet: cr.n_bytes_packet[1],
            n_flow: 1,
            label: cr.label.duplicate(),
        };
        (nf1, nf2)
    }

    /// A copy of this flow.
    pub fn duplicate(&self) -> (r: NetFlow)
        ensures
            r == *self,
    {
        NetFlow {
            timestamp: self.timestamp,
            duration: self.duration,
            duration_str_width: self.duration_str_width,
            protocol: self.protocol,
            src_ip: self.src_ip.clone(),
            src_port: self.src_port,
            dst_ip: self.dst_ip.clone(),
            dst_port: self.dst_port,
            flags: self.flags,
            qos: self.qos,
            n_packet: self.n_packet,
            n_bytes_packet: self.n_bytes_packet,
            n_flow: self.n_flow,
            label: self.label.duplicate(),
        }
    }

    /// The duration in whole milliseconds.
    pub fn duration_ms(&self) -> (r: i64)
        requires
            self.duration >= 0,
        ensures
            r == ms_of(self.duration),
    {
        self.duration / 1000
    }

    /// Sets the width of the duration column.
    pub fn duration_str_width_mut(&mut self, width: u8)
        ensures
            *final(self) == (NetFlow { duration_str_width: width, ..*old(self) }),
    {
        self.duration_str_width = width;
    }

    pub fn label(&self) -> (r: &Label)
        ensures
            *r == self.label,
    {
        &self.label
    }
}


/// `10` to the power `k`.
pub open spec fn pow10(k: nat) -> nat
    decreases k,
{
    if k == 0 { 1 } else { 10 * pow10((k - 1) as nat) }
}

/// The number of decimal digits of `n` (1 for 0).
pub open spec fn n_digits(n: nat) -> nat {
    decimal(n).len()
}

proof fn lemma_digits_step(n: nat)
    ensures
        n < 10 ==> n_digits(n) == 1,
        n >= 10 ==> n_digits(n) == 1 + n_digits(n / 10),
{
}

proof fn lemma_digits_mono(a: nat, b: nat)
    requires
        a <= b,
    ensures
        n_digits(a) <= n_digits(b),
    decreases b,
{
    lemma_digits_step(a);
    lemma_digits_step(b);
    if a >= 10 {
        lemma_digits_mono(a / 10, b / 10);
    }
}

/// The number of decimal digits of `x`.
pub fn get_n_digit_in_decimal(x: u64) -> (r: u8)
    ensures
        r == n_digits(x as nat),
        r <= 20,
{
    proof {
        reveal_with_fuel(pow10, 21);
    }
    assert(pow10(20) == 100000000000000000000nat);
    if x == 0 {
        proof { lemma_digits_step(0); }
        return 1;
    }
    let mut y: u64 = x;
    let mut n: u8 = 0;
    while y != 0
        invariant
            n <= 20,
            (y as nat) < pow10((20 - n) as nat),
            n_digits(x as nat) == n + (if y == 0 { 0 } else { n_digits(y as nat) }),
        decreases y,
    {
        proof {
            lemma_digits_step(y as nat);
            assert(pow10((20 - n) as nat) == 10 * pow10((20 - n - 1) as nat));
        }
        y = y / 10;
        n = n + 1;
    }
    n
}

/// A duration of `ms` milliseconds as text: seconds, `.`, then the
/// remaining milliseconds without padding (1005 ms reads `1.5`).
pub open spec fn duration_text(ms: nat) -> Seq<char> {
    decimal(ms / 1000) + seq!['.'] + decimal(ms % 1000)
}

/// The duration column width for a batch whose longest flow lasts `m`
/// milliseconds: its digits, one for the `.`, and one more below a second.
pub open spec fn width_for(m: nat) -> nat {
    n_digits(m) + 1 + (if m < 1000 { 1nat } else { 0nat })
}

proof fn lemma_digits_thousand(n: nat)
    requires
        n >= 1000,
    ensures
        n_digits(n) == n_digits(n / 1000) + 3,
{
    lemma_digits_step(n);
    lemma_digits_step(n / 10);
    lemma_digits_step(n / 10 / 10);
    assert(n / 10 / 10 / 10 == n / 1000);
}

proof fn lemma_digits_small(n: nat)
    requires
        n < 1000,
    ensures
        n_digits(n) <= 3,
{
    lemma_digits_mono(n, 999);
    lemma_digits_step(999);
    lemma_digits_step(99);
    lemma_digits_step(9);
}

/// A batch's duration column holds the duration of each of its flows:
/// a flow of `ms` milliseconds renders in no more than the width computed
/// from any maximum `max >= ms`.
pub proof fn duration_fits_width(ms: nat, max: nat)
    requires
        ms <= max,
    ensures
        duration_text(ms).len() <= width_for(max),
{
    lemma_digits_step(ms / 1000);
    if max < 1000 {
        lemma_digits_mono(ms % 1000, max);
    } else if ms < 1000 {
        lemma_digits_small(ms);
        lemma_digits_mono(1000, max);
        lemma_digits_thousand(1000);
    } else {
        lemma_digits_thousand(ms);
        lemma_digits_small(ms % 1000);
        lemma_digits_mono(ms, max);
    }
}


/// The longest duration of a batch of records, in whole milliseconds,
/// negative durations counting as zero.
pub open spec fn max_ms(recs: Seq<CICRecord>) -> nat
    decreases recs.len(),
{
    if recs.len() == 0 {
        0
    } else {
        let m = max_ms(recs.drop_last());
        let d = ms_of(clamped(recs.last().duration));
        if d > m { d } else { m }
    }
}

/// Every record of a batch lasts no longer than its maximum.
proof fn lemma_max_ms_bounds(recs: Seq<CICRecord>, k: int)
    requires
        0 <= k < recs.len(),
    ensures
        ms_of(clamped(recs[k].duration)) <= max_ms(recs),
    decreases recs.len(),
{
    if k < recs.len() - 1 {
        lemma_max_ms_bounds(recs.drop_last(), k);
    }
}

/// Both flows of each record, in record order (forward first), every one
/// with the duration column width of the whole batch.
pub fn cic_to_nf_batch(cic_records: &Vec<CICRecord>) -> (r: Vec<NetFlow>)
    requires
        2 * cic_records@.len() <= usize::MAX,
    ensures
        r@.len() == 2 * cic_records@.len(),
        forall|k: int|
            0 <= k < cic_records@.len() ==> is_forward(#[trigger] r@[2 * k], cic_records@[k])
                && is_reverse(r@[2 * k + 1], cic_records@[k]),
        forall|j: int|
            0 <= j < r@.len() ==> #[trigger] r@[j].duration_str_width == width_for(max_ms(cic_records@))
                && ms_of(r@[j].duration) <= max_ms(cic_records@),
{
    let mut max_duration_ms: u64 = 0;
    let mut i: usize = 0;
    while i < cic_records.len()
        invariant
            i <= cic_records@.len(),
            max_duration_ms as nat == max_ms(cic_records@.take(i as int)),
            max_duration_ms <= i64::MAX as u64 / 1000,
        decreases cic_records@.len() - i,
    {
        assert(cic_records@.take(i + 1).drop_last() =~= cic_records@.take(i as int));
        let d = clamp_duration(cic_records[i].duration) / 1000;
        if d as u64 > max_duration_ms {
            max_duration_ms = d as u64;
        }
        i = i + 1;
    }
    assert(cic_records@.take(cic_records@.len() as int) =~= cic_records@);
    let mut duration_width: u8 = get_n_digit_in_decimal(max_duration_ms) + 1;
    if max_duration_ms < 1000 {
        duration_width = duration_width + 1;
    }
    let mut netflow_storage: Vec<NetFlow> = Vec::new();
    let mut k: usize = 0;
    while k < cic_records.len()
        invariant
            k <= cic_records@.len(),
            2 * cic_records@.len() <= usize::MAX,
            duration_width == width_for(max_ms(cic_records@)),
            netflow_storage@.len() == 2 * k,
            forall|m: int|
                0 <= m < k ==> is_forward(#[trigger] netflow_storage@[2 * m], cic_records@[m])
                    && is_reverse(netflow_storage@[2 * m + 1], cic_records@[m]),
            forall|j: int|
                0 <= j < netflow_storage@.len() ==> #[trigger] netflow_storage@[j].duration_str_width
                    == duration_width && ms_of(netflow_storage@[j].duration) <= max_ms(
                    cic_records@,
                ),
        decreases cic_records@.len() - k,
    {
        let (mut nf1, mut nf2) = NetFlow::new(&cic_records[k]);
        nf1.duration_str_width_mut(duration_width);
        nf2.duration_str_width_mut(duration_width);
        proof {
            lemma_max_ms_bounds(cic_records@, k as int);
        }
        netflow_storage.push(nf1);
        netflow_storage.push(nf2);
        assert(netflow_storage@[2 * k as int] == nf1);
        k = k + 1;
    }
    netflow_storage
}

/// The flows of `s` whose label has index `index`, in order.
pub open spec fn group_of(s: Seq<NetFlow>, index: int) -> Seq<NetFlow>
    decreases s.len(),
{
    if s.len() == 0 {
        seq![]
    } else {
        let prev = group_of(s.drop_last(), index);
        if s.last().label.index == index {
            prev.push(s.last())
        } else {
            prev
        }
    }
}

/// Splits flows by label: group `i` holds, in order, the flows whose label
/// index is `i + 1`.
pub fn categorize_nf(nf_records: Vec<NetFlow>, label_library: LabelLibrary) -> (r: Vec<Vec<NetFlow>>)
    requires
        forall|j: int|
            0 <= j < nf_records@.len() ==> 1 <= #[trigger] nf_records@[j].label.index <= label_library@.len(),
    ensures
        r@.len() == label_library@.len(),
        forall|i: int| 0 <= i < r@.len() ==> #[trigger] r@[i]@ == group_of(nf_records@, i + 1),
{
    let n = label_library.len();
    let mut groups: Vec<Vec<NetFlow>> = Vec::new();
    let mut g: usize = 0;
    while g < n
        invariant
            g <= n,
            groups@.len() == g,
            forall|i: int| 0 <= i < g ==> #[trigger] groups@[i]@ == Seq::<NetFlow>::empty(),
        decreases n - g,
    {
        groups.push(Vec::new());
        g = g + 1;
    }
    let mut k: usize = 0;
    while k < nf_records.len()
        invariant
            k <= nf_records@.len(),
            n == label_library@.len(),
            groups@.len() == n,
            forall|j: int|
                0 <= j < nf_records@.len() ==> 1 <= #[trigger] nf_records@[j].label.index <= n,
            forall|i: int|
                0 <= i < n ==> #[trigger] groups@[i]@ == group_of(nf_records@.take(k as int), i + 1),
        decreases nf_records@.len() - k,
    {
        let nf = nf_records[k].duplicate();
        let i: usize = (nf.label.index - 1) as usize;
        let ghost before = groups@;
        let mut group = groups.remove(i);
        group.push(nf);
        groups.insert(i, group);
        proof {
            assert(groups@ =~= before.update(i as int, group));
            let s = nf_records@.take(k + 1);
            assert(s.drop_last() =~= nf_records@.take(k as int));
            assert(s.last() == nf);
            assert forall|m: int| 0 <= m < n implies #[trigger] groups@[m]@ == group_of(s, m + 1) by {
                if m != i {
                    assert(groups@[m] == before[m]);
                }
            }
        }
        k = k + 1;
    }
    assert(nf_records@.take(nf_records@.len() as int) =~= nf_records@);
    groups
}


/// The text line of a flow: timestamp, duration, protocol, source and
/// destination endpoints, QoS, flags, packets, bytes and flows, in
/// fixed-width columns.
pub open spec fn line_text(nf: NetFlow) -> Seq<char> {
    datetime_text(nf.timestamp.time) + " "@ + align_right(duration_text(ms_of(nf.duration)), nf.duration_str_width as nat)
        + " "@ + align_right(decimal(nf.protocol as nat), 3) + " "@ + align_right(nf.src_ip@, 15) + ":"@
        + align_left(decimal(nf.src_port as nat), 5) + " ->   "@ + align_right(nf.dst_ip@, 15) + ":"@
        + align_left(decimal(nf.dst_port as nat), 5) + " "@ + align_right(decimal(nf.qos as nat), 3) + " "@
        + align_left(flags_text(nf.flags), 8) + " "@ + align_right(decimal(nf.n_packet as nat), 8) + " "@
        + align_right(decimal(nf.n_bytes_packet as nat), 8) + " "@ + align_right(decimal(nf.n_flow as nat), 5)
}

impl NetFlow {
    /// The duration as `seconds.milliseconds`, right-aligned in the
    /// duration column.
    pub fn format_duration(&self) -> (r: String)
        requires
            self.duration >= 0,
        ensures
            r@ == align_right(duration_text(ms_of(self.duration)), self.duration_str_width as nat),
    {
        let ms = self.duration_ms();
        let s = ms / 1000;
        let rem = ms % 1000;
        let mut tmp = decimal_string(s as u64);
        proof { reveal_strlit("."); }
        tmp.append(".");
        let tail = decimal_string(rem as u64);
        tmp.append(tail.as_str());
        pad_right_aligned(tmp.as_str(), self.duration_str_width as usize)
    }

    /// The flow as one line of text (see `line_text`).
    #[verifier::rlimit(60)]
    pub fn to_line(&self) -> (r: String)
        requires
            self.duration >= 0,
        ensures
            r@ == line_text(*self),
    {
        proof {
            reveal_strlit(" ");
            reveal_strlit(":");
            reveal_strlit(" ->   ");
        }
        let mut r = self.timestamp.to_text();
        r.append(" ");
        let c = self.format_duration();
        r.append(c.as_str());
        r.append(" ");
        let c = pad_right_aligned(decimal_string(self.protocol as u64).as_str(), 3);
        r.append(c.as_str());
        r.append(" ");
        let c = pad_right_aligned(self.src_ip.as_str(), 15);
        r.append(c.as_str());
        r.append(":");
        let c = pad_left_aligned(decimal_string(self.src_port as u64).as_str(), 5);
        r.append(c.as_str());
        r.append(" ->   ");
        let c = pad_right_aligned(self.dst_ip.as_str(), 15);
        r.append(c.as_str());
        r.append(":");
        let c = pad_left_aligned(decimal_string(self.dst_port as u64).as_str(), 5);
        r.append(c.as_str());
        r.append(" ");
        let c = pad_right_aligned(decimal_string(self.qos as u64).as_str(), 3);
        r.append(c.as_str());
        r.append(" ");
        let c = pad_left_aligned(self.flags.to_text().as_str(), 8);
        r.append(c.as_str());
        r.append(" ");
        let c = pad_right_aligned(decimal_string(self.n_packet).as_str(), 8);
        r.append(c.as_str());
        r.append(" ");
        let c = pad_right_aligned(decimal_string(self.n_bytes_packet).as_str(), 8);
        r.append(c.as_str());
        r.append(" ");
        let c = pad_right_aligned(decimal_string(self.n_flow as u64).as_str(), 5);
        r.append(c.as_str());
        r
    }
}


/// The total size of the groups with indices `1..=n`.
pub open spec fn group_sizes(s: Seq<NetFlow>, n: nat) -> nat
    decreases n,
{
    if n == 0 {
        0
    } else {
        group_sizes(s, (n - 1) as nat) + group_of(s, n as int).len()
    }
}

proof fn lemma_sizes_push(s: Seq<NetFlow>, x: NetFlow, n: nat)
    ensures
        group_sizes(s.push(x), n) == group_sizes(s, n) + (if 1 <= x.label.index <= n { 1nat } else { 0nat }),
    decreases n,
{
    assert(s.push(x).drop_last() =~= s);
    if n > 0 {
        lemma_sizes_push(s, x, (n - 1) as nat);
    }
}

/// Grouping by label is a partition: a group holds only flows of the input
/// with its own index; each flow lies in the group of its index; and where
/// every index lies in `1..=n`, the `n` groups together hold exactly as many
/// flows as the input, so none is in two groups and none is lost.
pub proof fn categorize_partition(s: Seq<NetFlow>, n: nat)
    requires
        forall|j: int| 0 <= j < s.len() ==> 1 <= #[trigger] s[j].label.index <= n,
    ensures
        forall|k: int, x: NetFlow| #[trigger] group_of(s, k).contains(x) ==> x.label.index == k && s.contains(x),
        forall|j: int| 0 <= j < s.len() ==> group_of(s, #[trigger] s[j].label.index as int).contains(s[j]),
        group_sizes(s, n) == s.len(),
    decreases s.len(),
{
    if s.len() > 0 {
        let rest = s.drop_last();
        let x = s.last();
        assert(rest.push(x) =~= s);
        assert forall|j: int| 0 <= j < rest.len() implies 1 <= #[trigger] rest[j].label.index <= n by {
            assert(rest[j] == s[j]);
        }
        categorize_partition(rest, n);
        lemma_sizes_push(rest, x, n);
        assert forall|k: int, y: NetFlow| #[trigger] group_of(s, k).contains(y) implies y.label.index == k && s.contains(y) by {
            if y != x || x.label.index != k {
                let w = choose|w: int| 0 <= w < group_of(s, k).len() && group_of(s, k)[w] == y;
                if x.label.index == k {
                    assert(group_of(rest, k)[w] == y);
                }
                assert(group_of(rest, k).contains(y));
                let v = choose|v: int| 0 <= v < rest.len() && rest[v] == y;
                assert(s[v] == y);
            } else {
                assert(s[s.len() - 1] == y);
            }
        }
        assert forall|j: int| 0 <= j < s.len() implies group_of(s, #[trigger] s[j].label.index as int).contains(s[j]) by {
            let k = s[j].label.index as int;
            if j < rest.len() {
                assert(rest[j] == s[j]);
                assert(group_of(rest, k).contains(s[j]));
                let w = choose|w: int| 0 <= w < group_of(rest, k).len() && group_of(rest, k)[w] == s[j];
                assert(group_of(s, k)[w] == s[j]);
            } else {
                assert(group_of(s, k).last() == x);
            }
        }
    } else {
        lemma_sizes_empty(s, n);
    }
}

proof fn lemma_sizes_empty(s: Seq<NetFlow>, n: nat)
    requires
        s.len() == 0,
    ensures
        group_sizes(s, n) == 0,
    decreases n,
{
    if n > 0 {
        lemma_sizes_empty(s, (n - 1) as nat);
    }
}

} // verus!
