//! One task as a coloured line of a listing.
use vstd::prelude::*;
use crate::decimal::{int_text, int_to_chars};
use crate::task::{timestamp_representable, Task};
use crate::text::{chars_of, extend_chars, string_of};

verus! {

/// How close a task is to its due date.
#[derive(Clone, Copy, Debug, PartialEq, Eq, Structural)]
pub enum Urgency {
    Overdue,
    Soon,
    Later,
}

/// Overdue before today, due soon within a day, later otherwise.
pub open spec fn urgency_of(days_left: int) -> Urgency {
    if days_left < 0 {
        Urgency::Overdue
    } else if days_left <= 1 {
        Urgency::Soon
    } else {
        Urgency::Later
    }
}

/// The terminal colour sequence of an urgency: bold red, yellow or green.
pub open spec fn color_code(u: Urgency) -> Seq<char> {
    let digit = match u {
        Urgency::Overdue => '1',
        Urgency::Soon => '3',
        Urgency::Later => '2',
    };
    seq!['\u{1b}', '[', '1', ';', '3', digit, 'm']
}

pub open spec fn reset_code() -> Seq<char> {
    seq!['\u{1b}', '[', '0', 'm']
}

/// `s` followed by spaces up to `w` characters.
pub open spec fn padded(s: Seq<char>, w: nat) -> Seq<char> {
    if s.len() >= w {
        s
    } else {
        s + Seq::new((w - s.len()) as nat, |i: int| ' ')
    }
}

/// The text chrono writes for the date and time `secs` seconds after the
/// epoch, as a month, a day and a twelve-hour time.
pub uninterp spec fn date_label(secs: int) -> Seq<char>;

/// Relies on chrono's `DateTime::<Utc>::from_timestamp` (for the date and
/// time, `None` outside chrono's range) and its `format` with
/// `%b %d, %l:%M %P`.
#[verifier::external_body]
fn format_date(secs: i64) -> (r: Option<String>)
    ensures
        r.is_some() == timestamp_representable(secs as int),
        r.is_some() ==> r.unwrap()@ == date_label(secs as int),
{
    chrono::DateTime::<chrono::Utc>::from_timestamp(secs, 0).map(
        |d| d.naive_utc().format("%b %d, %l:%M %P").to_string(),
    )
}

/// The date shown for a task; its number of seconds where chrono has no date.
pub open spec fn shown_date(secs: int) -> Seq<char> {
    if timestamp_representable(secs) {
        date_label(secs)
    } else {
        int_text(secs)
    }
}

/// The listing line of `t` in a terminal `width` columns wide.
pub open spec fn pretty_line(t: Task, width: nat, days_left: int) -> Seq<char> {
    color_code(urgency_of(days_left)) + padded(t.id@, 4) + seq![' ', ':', ' '] + padded(
        t.name@,
        (width - 26) as nat,
    ) + seq![' ', '|', ' '] + shown_date(t.date.secs as int) + reset_code()
}

pub fn urgency(days_left: i64) -> (r: Urgency)
    ensures
        r == urgency_of(days_left as int),
{
    if days_left < 0 {
        Urgency::Overdue
    } else if days_left <= 1 {
        Urgency::Soon
    } else {
        Urgency::Later
    }
}

fn push_padded(out: &mut Vec<char>, s: &Vec<char>, w: usize)
    ensures
        final(out)@ == old(out)@ + padded(s@, w as nat),
{
    extend_chars(out, s);
    let ghost mid = out@;
    let mut k: usize = s.len();
    while k < w
        invariant
            s@.len() <= k <= w || (k == s@.len() && k >= w),
            out@ == mid + Seq::new((k - s@.len()) as nat, |i: int| ' '),
        decreases w - k,
    {
        out.push(' ');
        k = k + 1;
        assert(out@ =~= mid + Seq::new((k - s@.len()) as nat, |i: int| ' '));
    }
    if s.len() >= w {
        assert(out@ =~= old(out)@ + s@);
    } else {
        assert(out@ =~= old(out)@ + padded(s@, w as nat));
    }
}

impl Task {
    /// The listing line of the record, coloured by `days_left`, the whole days
    /// from now to its date, with the name padded to `width - 26` columns.
    pub fn pretty(&self, width: u16, days_left: i64) -> (r: String)
        requires
            width >= 26,
        ensures
            r@ == pretty_line(*self, width as nat, days_left as int),
    {
        let u = urgency(days_left);
        let mut out: Vec<char> = Vec::new();
        out.push('\u{1b}');
        out.push('[');
        out.push('1');
        out.push(';');
        out.push('3');
        match u {
            Urgency::Overdue => out.push('1'),
            Urgency::Soon => out.push('3'),
            Urgency::Later => out.push('2'),
        }
        out.push('m');
        assert(out@ =~= color_code(urgency_of(days_left as int)));
        let id = chars_of(&self.id);
        push_padded(&mut out, &id, 4);
        out.push(' ');
        out.push(':');
        out.push(' ');
        let name = chars_of(&self.name);
        push_padded(&mut out, &name, (width - 26) as usize);
        out.push(' ');
        out.push('|');
        out.push(' ');
        let date = match format_date(self.date.secs) {
            Some(label) => chars_of(&label),
            None => int_to_chars(self.date.secs),
        };
        extend_chars(&mut out, &date);
        out.push('\u{1b}');
        out.push('[');
        out.push('0');
        out.push('m');
        assert(out@ =~= pretty_line(*self, width as nat, days_left as int));
        string_of(&out)
    }
}

} // verus!
