//! One task and its one-line text form `id|name|seconds|done`, where a `|`
//! inside the name is written `\|`.
use vstd::prelude::*;
use crate::decimal::{
    chars_to_int, int_of_text, int_text, int_to_chars, lemma_int_text_plain,
    lemma_int_text_round_trip,
};
use crate::text::{chars_of, extend_chars, string_of};

verus! {

/// A point in time: whole seconds since the Unix epoch and the nanoseconds
/// past that second.
#[derive(Clone, Copy, Debug, PartialEq, Eq, Structural)]
pub struct Instant {
    pub secs: i64,
    pub nanos: u32,
}

/// What can go wrong while loading, storing or creating tasks.
#[derive(Clone, Copy, Debug, PartialEq, Eq, Structural)]
pub enum TaskError {
    /// The backing file cannot be opened, created or written.
    StoreUnavailable,
    /// A stored line is not a valid task record.
    MalformedRecord,
    /// No unused id turned up within the allowed number of attempts.
    ExhaustedIdSpace,
    /// No record has the id asked for.
    TaskNotFound,
    /// A due date that cannot be read.
    InvalidDate,
}

/// One task: an id unique in its collection, a name, a due date and a done
/// flag that never goes back to false.
#[derive(Debug)]
pub struct Task {
    pub id: String,
    pub done: bool,
    pub name: String,
    pub date: Instant,
}

/// Whether chrono can represent the date and time `secs` seconds after the epoch.
pub uninterp spec fn timestamp_representable(secs: int) -> bool;

/// Relies on chrono's `DateTime::<Utc>::from_timestamp`, which returns `None`
/// exactly when the timestamp lies outside the dates chrono represents.
#[verifier::external_body]
fn timestamp_in_range(secs: i64) -> (r: bool)
    ensures
        r == timestamp_representable(secs as int),
{
    chrono::DateTime::<chrono::Utc>::from_timestamp(secs, 0).is_some()
}

pub open spec fn escape_char(c: char) -> Seq<char> {
    if c == '|' {
        seq!['\\', '|']
    } else {
        seq![c]
    }
}

/// A name with every `|` written as `\|`.
pub open spec fn escape(s: Seq<char>) -> Seq<char>
    decreases s.len(),
{
    if s.len() == 0 {
        Seq::empty()
    } else {
        escape_char(s[0]) + escape(s.subrange(1, s.len() as int))
    }
}

/// The escape-aware scanner: `\|` adds a `|` to the current field, a bare
/// `|` closes the field, anything else is added to it.
pub open spec fn scan(s: Seq<char>, cur: Seq<char>) -> Seq<Seq<char>>
    decreases s.len(),
{
    if s.len() == 0 {
        seq![cur]
    } else if s[0] == '\\' && s.len() >= 2 && s[1] == '|' {
        scan(s.subrange(2, s.len() as int), cur.push('|'))
    } else if s[0] == '|' {
        seq![cur] + scan(s.subrange(1, s.len() as int), Seq::empty())
    } else {
        scan(s.subrange(1, s.len() as int), cur.push(s[0]))
    }
}

/// The fields of a line.
pub open spec fn fields_of(line: Seq<char>) -> Seq<Seq<char>> {
    scan(line, Seq::empty())
}

pub open spec fn bool_text(b: bool) -> Seq<char> {
    if b {
        seq!['t', 'r', 'u', 'e']
    } else {
        seq!['f', 'a', 'l', 's', 'e']
    }
}

pub open spec fn bool_of_text(s: Seq<char>) -> Option<bool> {
    if s == bool_text(true) {
        Some(true)
    } else if s == bool_text(false) {
        Some(false)
    } else {
        None
    }
}

/// The line that stores a task.
pub open spec fn line_of(t: Task) -> Seq<char> {
    t.id@ + (seq!['|'] + (escape(t.name@) + (seq!['|'] + (int_text(t.date.secs as int) + (
    seq!['|'] + bool_text(t.done))))))
}

/// What a line holds, as (id, name, seconds, done), or `None` when the line
/// is not a record: not exactly four fields, a date that is not a
/// representable integer, or a done field other than `true` and `false`.
pub open spec fn record_of(line: Seq<char>) -> Option<(Seq<char>, Seq<char>, int, bool)> {
    let f = fields_of(line);
    if f.len() == 4 && int_of_text(f[2]).is_some() && timestamp_representable(
        int_of_text(f[2]).unwrap(),
    ) && bool_of_text(f[3]).is_some() {
        Some((f[0], f[1], int_of_text(f[2]).unwrap(), bool_of_text(f[3]).unwrap()))
    } else {
        None
    }
}

/// An id that can be stored as it is: no `|` and no `\`.
pub open spec fn plain(s: Seq<char>) -> bool {
    forall|i: int| 0 <= i < s.len() ==> #[trigger] s[i] != '|' && s[i] != '\\'
}

impl Task {
    /// What the stored line of a record reproduces: everything but the
    /// fraction of a second.
    pub open spec fn stored(&self) -> (Seq<char>, Seq<char>, int, bool) {
        (self.id@, self.name@, self.date.secs as int, self.done)
    }

    /// A record whose line reads back as itself: a plain id, a name that does
    /// not end in `\`, and a date that chrono represents.
    pub open spec fn valid(&self) -> bool {
        &&& plain(self.id@)
        &&& !(self.name@.len() > 0 && self.name@.last() == '\\')
        &&& timestamp_representable(self.date.secs as int)
    }

    /// A new, unfinished task.
    pub fn new(id: String, name: String, date: Instant) -> (r: Self)
        ensures
            r.id == id,
            r.name == name,
            r.date == date,
            !r.done,
    {
        Task { id, name, date, done: false }
    }

    /// A copy of the record.
    pub fn duplicate(&self) -> (r: Task)
        ensures
            r == *self,
    {
        Task { id: self.id.clone(), done: self.done, name: self.name.clone(), date: self.date }
    }

    /// The record as one line of the backing file.
    pub fn to_string(&self) -> (r: String)
        ensures
            r@ == line_of(*self),
    {
        let mut out = chars_of(&self.id);
        out.push('|');
        let name = chars_of(&self.name);
        let esc = escape_chars(&name);
        extend_chars(&mut out, &esc);
        out.push('|');
        let date = int_to_chars(self.date.secs);
        extend_chars(&mut out, &date);
        out.push('|');
        let done = bool_to_chars(self.done);
        extend_chars(&mut out, &done);
        assert(out@ =~= line_of(*self));
        string_of(&out)
    }

    /// The task a stored line describes, with no fraction of a second.
    pub fn parse(s: String) -> (r: Result<Task, TaskError>)
        ensures
            match r {
                Ok(t) => record_of(s@) == Some(t.stored()) && t.date.nanos == 0,
                Err(e) => record_of(s@).is_none() && e == TaskError::MalformedRecord,
            },
    {
        let line = chars_of(&s);
        let fields = split_fields(&line);
        proof {
            assert(fields@.map_values(|f: Vec<char>| f@) == fields_of(s@));
            assert(fields@.len() == fields_of(s@).len());
        }
        if fields.len() != 4 {
            return Err(TaskError::MalformedRecord);
        }
        proof {
            assert forall|k: int| 0 <= k < 4 implies fields@[k]@ == #[trigger] fields_of(s@)[k] by {
                assert(fields@.map_values(|f: Vec<char>| f@)[k] == fields@[k]@);
            }
        }
        let secs = match chars_to_int(&fields[2]) {
            Some(v) => v,
            None => {
                return Err(TaskError::MalformedRecord);
            },
        };
        if !timestamp_in_range(secs) {
            return Err(TaskError::MalformedRecord);
        }
        let done = match chars_to_bool(&fields[3]) {
            Some(b) => b,
            None => {
                return Err(TaskError::MalformedRecord);
            },
        };
        let id = string_of(&fields[0]);
        let name = string_of(&fields[1]);
        Ok(Task { id, done, name, date: Instant { secs, nanos: 0 } })
    }
}

impl PartialEq for Task {
    /// Two records are the same task when their ids are equal.
    fn eq(&self, other: &Task) -> (r: bool) {
        self.id == other.id
    }
}

impl vstd::std_specs::cmp::PartialEqSpecImpl for Task {
    open spec fn obeys_eq_spec() -> bool {
        true
    }

    open spec fn eq_spec(&self, other: &Task) -> bool {
        self.id@ == other.id@
    }
}

impl Eq for Task {
}

proof fn lemma_escape_push(s: Seq<char>, c: char)
    ensures
        escape(s.push(c)) == escape(s) + escape_char(c),
    decreases s.len(),
{
    if s.len() == 0 {
        assert(s.push(c).subrange(1, 1) =~= Seq::<char>::empty());
        assert(s.push(c)[0] == c);
        assert(escape(Seq::<char>::empty()) == Seq::<char>::empty());
        assert(escape(s.push(c)) == escape_char(c) + escape(Seq::<char>::empty()));
        assert(escape(s.push(c)) =~= escape(s) + escape_char(c));
    } else {
        let t = s.push(c);
        assert(t.subrange(1, t.len() as int) =~= s.subrange(1, s.len() as int).push(c));
        lemma_escape_push(s.subrange(1, s.len() as int), c);
        assert(escape(t) =~= escape(s) + escape_char(c));
    }
}

/// The escaped form of a name.
fn escape_chars(s: &Vec<char>) -> (r: Vec<char>)
    ensures
        r@ == escape(s@),
{
    let mut r: Vec<char> = Vec::new();
    let mut i: usize = 0;
    while i < s.len()
        invariant
            i <= s@.len(),
            r@ == escape(s@.subrange(0, i as int)),
        decreases s@.len() - i,
    {
        let c = s[i];
        proof {
            assert(s@.subrange(0, i + 1) =~= s@.subrange(0, i as int).push(c));
            lemma_escape_push(s@.subrange(0, i as int), c);
        }
        if c == '|' {
            r.push('\\');
            r.push('|');
        } else {
            r.push(c);
        }
        i = i + 1;
        assert(r@ =~= escape(s@.subrange(0, i as int)));
    }
    assert(s@.subrange(0, s@.len() as int) =~= s@);
    r
}

fn bool_to_chars(b: bool) -> (r: Vec<char>)
    ensures
        r@ == bool_text(b),
{
    let mut r: Vec<char> = Vec::new();
    if b {
        r.push('t');
        r.push('r');
        r.push('u');
        r.push('e');
    } else {
        r.push('f');
        r.push('a');
        r.push('l');
        r.push('s');
        r.push('e');
    }
    assert(r@ =~= bool_text(b));
    r
}

fn chars_to_bool(s: &Vec<char>) -> (r: Option<bool>)
    ensures
        r == bool_of_text(s@),
{
    if s.len() == 4 && s[0] == 't' && s[1] == 'r' && s[2] == 'u' && s[3] == 'e' {
        assert(s@ =~= bool_text(true));
        Some(true)
    } else if s.len() == 5 && s[0] == 'f' && s[1] == 'a' && s[2] == 'l' && s[3] == 's' && s[4]
        == 'e' {
        assert(s@ =~= bool_text(false));
        Some(false)
    } else {
        assert(s@ != bool_text(true));
        assert(s@ != bool_text(false));
        None
    }
}

/// Splits a line into its fields with the escape-aware scanner.
fn split_fields(line: &Vec<char>) -> (r: Vec<Vec<char>>)
    ensures
        r@.map_values(|f: Vec<char>| f@) == fields_of(line@),
{
    let n = line.len();
    let mut out: Vec<Vec<char>> = Vec::new();
    let mut cur: Vec<char> = Vec::new();
    let mut i: usize = 0;
    assert(line@.subrange(0, n as int) =~= line@);
    while i < n
        invariant
            i <= n,
            n == line@.len(),
            out@.map_values(|f: Vec<char>| f@) + scan(line@.subrange(i as int, n as int), cur@)
                == fields_of(line@),
        decreases n - i,
    {
        let ghost rest = line@.subrange(i as int, n as int);
        let ghost before = out@.map_values(|f: Vec<char>| f@);
        let c = line[i];
        if c == '\\' && i + 1 < n && line[i + 1] == '|' {
            cur.push('|');
            assert(rest.subrange(2, rest.len() as int) =~= line@.subrange(i + 2, n as int));
            i = i + 2;
        } else if c == '|' {
            assert(rest.subrange(1, rest.len() as int) =~= line@.subrange(i + 1, n as int));
            let done = cur;
            cur = Vec::new();
            proof {
                assert(out@.push(done).map_values(|f: Vec<char>| f@) =~= before.push(done@));
                assert(before.push(done@) + scan(line@.subrange(i + 1, n as int), cur@) =~= before
                    + (seq![done@] + scan(line@.subrange(i + 1, n as int), cur@)));
            }
            out.push(done);
            i = i + 1;
        } else {
            cur.push(c);
            assert(rest.subrange(1, rest.len() as int) =~= line@.subrange(i + 1, n as int));
            i = i + 1;
        }
    }
    let ghost before = out@.map_values(|f: Vec<char>| f@);
    assert(line@.subrange(n as int, n as int) =~= Seq::<char>::empty());
    let last = cur;
    proof {
        assert(out@.push(last).map_values(|f: Vec<char>| f@) =~= before.push(last@));
        assert(before.push(last@) =~= before + seq![last@]);
    }
    out.push(last);
    out
}

proof fn lemma_scan_delim(rest: Seq<char>, cur: Seq<char>)
    ensures
        scan(seq!['|'] + rest, cur) == seq![cur] + scan(rest, Seq::empty()),
{
    let s = seq!['|'] + rest;
    assert(s.subrange(1, s.len() as int) =~= rest);
}

proof fn lemma_scan_plain(p: Seq<char>, rest: Seq<char>, cur: Seq<char>)
    requires
        plain(p),
    ensures
        scan(p + rest, cur) == scan(rest, cur + p),
    decreases p.len(),
{
    if p.len() == 0 {
        assert(p + rest =~= rest);
        assert(cur + p =~= cur);
    } else {
        let s = p + rest;
        let q = p.subrange(1, p.len() as int);
        assert(s[0] == p[0]);
        assert(s.subrange(1, s.len() as int) =~= q + rest);
        assert(plain(q)) by {
            assert forall|i: int| 0 <= i < q.len() implies #[trigger] q[i] != '|' && q[i]
                != '\\' by {
                assert(q[i] == p[i + 1]);
            }
        }
        lemma_scan_plain(q, rest, cur.push(p[0]));
        assert(cur.push(p[0]) + q =~= cur + p);
    }
}

proof fn lemma_scan_escaped(n: Seq<char>, rest: Seq<char>, cur: Seq<char>)
    requires
        !(n.len() > 0 && n.last() == '\\'),
    ensures
        scan(escape(n) + (seq!['|'] + rest), cur) == seq![cur + n] + scan(rest, Seq::empty()),
    decreases n.len(),
{
    let tail = seq!['|'] + rest;
    if n.len() == 0 {
        assert(escape(n) + tail =~= tail);
        lemma_scan_delim(rest, cur);
        assert(cur + n =~= cur);
    } else {
        let c = n[0];
        let m = n.subrange(1, n.len() as int);
        let s = escape(n) + tail;
        assert(m.len() > 0 ==> m.last() == n.last());
        lemma_scan_escaped(m, rest, cur.push(c));
        assert(cur.push(c) + m =~= cur + n);
        if c == '|' {
            assert(s[0] == '\\' && s[1] == '|');
            assert(s.subrange(2, s.len() as int) =~= escape(m) + tail);
        } else {
            assert(s[0] == c);
            assert(s.subrange(1, s.len() as int) =~= escape(m) + tail);
            if c == '\\' {
                assert(m.len() > 0);
                assert(escape(m) == escape_char(m[0]) + escape(m.subrange(1, m.len() as int)));
                assert(s[1] == escape(m)[0]);
                assert(s[1] != '|');
            }
        }
    }
}

/// Round trip: the stored line of a valid record reads back as the record,
/// with its date cut to whole seconds.
pub proof fn lemma_round_trip(t: Task)
    requires
        t.valid(),
    ensures
        record_of(line_of(t)) == Some(t.stored()),
{
    let id = t.id@;
    let date = int_text(t.date.secs as int);
    let done = bool_text(t.done);
    let e = Seq::<char>::empty();
    lemma_int_text_plain(t.date.secs as int);
    lemma_int_text_round_trip(t.date.secs as int);
    assert(plain(date));
    assert(plain(done));
    let y = date + (seq!['|'] + done);
    let x = escape(t.name@) + (seq!['|'] + y);
    lemma_scan_plain(id, seq!['|'] + x, e);
    assert(e + id =~= id);
    lemma_scan_delim(x, id);
    lemma_scan_escaped(t.name@, y, e);
    assert(e + t.name@ =~= t.name@);
    lemma_scan_plain(date, seq!['|'] + done, e);
    assert(e + date =~= date);
    lemma_scan_delim(done, date);
    lemma_scan_plain(done, e, e);
    assert(done + e =~= done);
    assert(e + done =~= done);
    let f = fields_of(line_of(t));
    assert(f =~= seq![id, t.name@, date, done]);
    assert(bool_of_text(done) == Some(t.done));
}

/// Escaping: whatever a name holds, `|` and `\|` included, the stored
/// line gives it back, provided it does not end in `\`.
pub proof fn lemma_name_round_trip(t: Task)
    requires
        t.valid(),
    ensures
        record_of(line_of(t)).is_some(),
        record_of(line_of(t)).unwrap().1 == t.name@,
{
    lemma_round_trip(t);
}

} // verus!
