//! The text of the backing file: one stored line per task, each ended by a
//! newline.
use vstd::prelude::*;
use crate::decimal::{int_text, lemma_int_text_plain};
use crate::manager::finished;
use crate::task::{bool_text, escape, escape_char, lemma_round_trip, line_of, record_of, Task, TaskError};
use crate::text::{chars_of, extend_chars, string_of};

verus! {

/// The file text that stores `tasks`, in order.
pub open spec fn store_text(tasks: Seq<Task>) -> Seq<char>
    decreases tasks.len(),
{
    if tasks.len() == 0 {
        Seq::empty()
    } else {
        store_text(tasks.drop_last()) + line_of(tasks.last()) + seq!['\n']
    }
}

/// Text cut at each newline.
pub open spec fn split_lines(s: Seq<char>, cur: Seq<char>) -> Seq<Seq<char>>
    decreases s.len(),
{
    if s.len() == 0 {
        seq![cur]
    } else if s[0] == '\n' {
        seq![cur] + split_lines(s.subrange(1, s.len() as int), Seq::empty())
    } else {
        split_lines(s.subrange(1, s.len() as int), cur.push(s[0]))
    }
}

/// The lines of a file: what lies between newlines, without the empty
/// remainder after a final newline.
pub open spec fn lines_of(text: Seq<char>) -> Seq<Seq<char>> {
    let l = split_lines(text, Seq::empty());
    if l.last().len() == 0 {
        l.drop_last()
    } else {
        l
    }
}

/// Whether every line of a file is a record.
pub open spec fn all_records(text: Seq<char>) -> bool {
    forall|i: int| 0 <= i < lines_of(text).len() ==> #[trigger] record_of(lines_of(text)[i]).is_some()
}

/// The text to write for `tasks`.
pub fn render(tasks: &Vec<Task>) -> (r: String)
    ensures
        r@ == store_text(tasks@),
{
    let mut out: Vec<char> = Vec::new();
    let mut i: usize = 0;
    while i < tasks.len()
        invariant
            i <= tasks@.len(),
            out@ == store_text(tasks@.subrange(0, i as int)),
        decreases tasks@.len() - i,
    {
        let line = chars_of(&tasks[i].to_string());
        extend_chars(&mut out, &line);
        out.push('\n');
        let ghost next = tasks@.subrange(0, i + 1);
        assert(next.drop_last() =~= tasks@.subrange(0, i as int));
        i = i + 1;
        assert(out@ =~= store_text(tasks@.subrange(0, i as int)));
    }
    assert(tasks@.subrange(0, tasks@.len() as int) =~= tasks@);
    string_of(&out)
}

fn lines(text: &Vec<char>) -> (r: Vec<Vec<char>>)
    ensures
        r@.map_values(|l: Vec<char>| l@) == lines_of(text@),
{
    let n = text.len();
    let mut out: Vec<Vec<char>> = Vec::new();
    let mut cur: Vec<char> = Vec::new();
    let mut i: usize = 0;
    assert(text@.subrange(0, n as int) =~= text@);
    while i < n
        invariant
            i <= n,
            n == text@.len(),
            out@.map_values(|l: Vec<char>| l@) + split_lines(text@.subrange(i as int, n as int), cur@)
                == split_lines(text@, Seq::empty()),
        decreases n - i,
    {
        let ghost rest = text@.subrange(i as int, n as int);
        let ghost before = out@.map_values(|l: Vec<char>| l@);
        let c = text[i];
        assert(rest.subrange(1, rest.len() as int) =~= text@.subrange(i + 1, n as int));
        if c == '\n' {
            let done = cur;
            cur = Vec::new();
            proof {
                assert(out@.push(done).map_values(|l: Vec<char>| l@) =~= before.push(done@));
                assert(before.push(done@) + split_lines(text@.subrange(i + 1, n as int), cur@)
                    =~= before + (seq![done@] + split_lines(text@.subrange(i + 1, n as int), cur@)));
            }
            out.push(done);
        } else {
            cur.push(c);
        }
        i = i + 1;
    }
    let ghost before = out@.map_values(|l: Vec<char>| l@);
    assert(text@.subrange(n as int, n as int) =~= Seq::<char>::empty());
    let last = cur;
    let ghost all = before.push(last@);
    proof {
        assert(out@.push(last).map_values(|l: Vec<char>| l@) =~= all);
        assert(all =~= before + seq![last@]);
    }
    if last.len() == 0 {
        assert(all.drop_last() =~= before);
        assert(out@.map_values(|l: Vec<char>| l@) == lines_of(text@));
    } else {
        out.push(last);
    }
    out
}

/// The records of a file, in order; `MalformedRecord` when some line is not a
/// record.
pub fn parse_store(contents: &String) -> (r: Result<Vec<Task>, TaskError>)
    ensures
        match r {
            Ok(v) => all_records(contents@) && v@.len() == lines_of(contents@).len() && forall|i: int|
                0 <= i < v@.len() ==> record_of(lines_of(contents@)[i]) == Some(
                    #[trigger] v@[i].stored(),
                ) && v@[i].date.nanos == 0,
            Err(e) => !all_records(contents@) && e == TaskError::MalformedRecord,
        },
{
    let text = chars_of(contents);
    let ls = lines(&text);
    let ghost lv = lines_of(contents@);
    assert(ls@.len() == lv.len());
    let mut out: Vec<Task> = Vec::new();
    let mut i: usize = 0;
    while i < ls.len()
        invariant
            i <= ls@.len(),
            ls@.map_values(|l: Vec<char>| l@) == lv,
            lv == lines_of(contents@),
            out@.len() == i,
            forall|k: int|
                0 <= k < i ==> record_of(lv[k]) == Some(#[trigger] out@[k].stored()) && out@[k].date.nanos
                    == 0,
        decreases ls@.len() - i,
    {
        assert(ls@.map_values(|l: Vec<char>| l@)[i as int] == ls@[i as int]@);
        let line = string_of(&ls[i]);
        match Task::parse(line) {
            Ok(t) => {
                out.push(t);
            },
            Err(_) => {
                assert(record_of(lv[i as int]).is_none());
                assert(ls@.map_values(|l: Vec<char>| l@).len() == ls@.len());
                assert(!record_of(lines_of(contents@)[i as int]).is_some());
                assert(!all_records(contents@));
                return Err(TaskError::MalformedRecord);
            },
        }
        i = i + 1;
    }
    assert forall|k: int| 0 <= k < lv.len() implies #[trigger] record_of(lv[k]).is_some() by {
        assert(record_of(lv[k]) == Some(out@[k].stored()));
    }
    Ok(out)
}

/// Whether `s` holds no newline.
pub open spec fn one_line(s: Seq<char>) -> bool {
    forall|i: int| 0 <= i < s.len() ==> #[trigger] s[i] != '\n'
}

/// A record that the file keeps on one line and reads back as itself.
pub open spec fn storable(t: Task) -> bool {
    t.valid() && one_line(t.id@) && one_line(t.name@)
}

proof fn lemma_split_lines_nonempty(s: Seq<char>, cur: Seq<char>)
    ensures
        split_lines(s, cur).len() >= 1,
    decreases s.len(),
{
    if s.len() > 0 {
        lemma_split_lines_nonempty(s.subrange(1, s.len() as int), if s[0] == '\n' {
            Seq::empty()
        } else {
            cur.push(s[0])
        });
    }
}

proof fn lemma_split_lines_append(s: Seq<char>, t: Seq<char>, cur: Seq<char>)
    ensures
        split_lines(s + t, cur) == split_lines(s, cur).drop_last() + split_lines(
            t,
            split_lines(s, cur).last(),
        ),
    decreases s.len(),
{
    if s.len() == 0 {
        assert(s + t =~= t);
        assert(split_lines(s, cur).drop_last() =~= Seq::<Seq<char>>::empty());
        assert(split_lines(s, cur).drop_last() + split_lines(t, cur) =~= split_lines(t, cur));
    } else {
        let q = s.subrange(1, s.len() as int);
        let st = s + t;
        assert(st[0] == s[0]);
        assert(st.subrange(1, st.len() as int) =~= q + t);
        if s[0] == '\n' {
            lemma_split_lines_append(q, t, Seq::empty());
            lemma_split_lines_nonempty(q, Seq::empty());
            let a = split_lines(q, Seq::empty());
            assert((seq![cur] + a).drop_last() =~= seq![cur] + a.drop_last());
            assert((seq![cur] + a).last() == a.last());
            assert(seq![cur] + (a.drop_last() + split_lines(t, a.last())) =~= (seq![cur]
                + a.drop_last()) + split_lines(t, a.last()));
        } else {
            lemma_split_lines_append(q, t, cur.push(s[0]));
        }
    }
}

proof fn lemma_split_one_line(p: Seq<char>, rest: Seq<char>, cur: Seq<char>)
    requires
        one_line(p),
    ensures
        split_lines(p + rest, cur) == split_lines(rest, cur + p),
    decreases p.len(),
{
    if p.len() == 0 {
        assert(p + rest =~= rest);
        assert(cur + p =~= cur);
    } else {
        let s = p + rest;
        let q = p.subrange(1, p.len() as int);
        assert(s[0] == p[0]);
        assert(s.subrange(1, s.len() as int) =~= q + rest);
        assert(one_line(q)) by {
            assert forall|i: int| 0 <= i < q.len() implies #[trigger] q[i] != '\n' by {
                assert(q[i] == p[i + 1]);
            }
        }
        lemma_split_one_line(q, rest, cur.push(p[0]));
        assert(cur.push(p[0]) + q =~= cur + p);
    }
}

proof fn lemma_escape_one_line(s: Seq<char>)
    requires
        one_line(s),
    ensures
        one_line(escape(s)),
    decreases s.len(),
{
    if s.len() > 0 {
        let q = s.subrange(1, s.len() as int);
        assert(one_line(q)) by {
            assert forall|i: int| 0 <= i < q.len() implies #[trigger] q[i] != '\n' by {
                assert(q[i] == s[i + 1]);
            }
        }
        lemma_escape_one_line(q);
        let e = escape(s);
        let h = escape_char(s[0]);
        assert(e == h + escape(q));
        assert forall|i: int| 0 <= i < e.len() implies #[trigger] e[i] != '\n' by {
            if i >= h.len() {
                assert(e[i] == escape(q)[i - h.len()]);
            }
        }
    }
}

proof fn lemma_line_one_line(t: Task)
    requires
        storable(t),
    ensures
        one_line(line_of(t)),
{
    lemma_escape_one_line(t.name@);
    lemma_int_text_plain(t.date.secs as int);
    let d = int_text(t.date.secs as int);
    assert(one_line(d));
    assert(one_line(bool_text(t.done)));
    let l = line_of(t);
    let bar = seq!['|'];
    let e = escape(t.name@);
    let b = bool_text(t.done);
    assert(l =~= t.id@ + bar + e + bar + d + bar + b);
    assert forall|i: int| 0 <= i < l.len() implies #[trigger] l[i] != '\n' by {
        let n1 = t.id@.len() as int;
        let n2 = n1 + 1;
        let n3 = n2 + e.len();
        let n4 = n3 + 1;
        let n5 = n4 + d.len();
        let n6 = n5 + 1;
        if i < n1 {
            assert(l[i] == t.id@[i]);
        } else if i < n2 {
        } else if i < n3 {
            assert(l[i] == e[i - n2]);
        } else if i < n4 {
        } else if i < n5 {
            assert(l[i] == d[i - n4]);
        } else if i < n6 {
        } else {
            assert(l[i] == b[i - n6]);
        }
    }
}

/// The lines of a file written for storable records are their stored lines.
pub proof fn lemma_lines_of_store_text(tasks: Seq<Task>)
    requires
        forall|i: int| 0 <= i < tasks.len() ==> storable(#[trigger] tasks[i]),
    ensures
        split_lines(store_text(tasks), Seq::empty()) == tasks.map_values(|t: Task| line_of(t)).push(
            Seq::empty(),
        ),
        lines_of(store_text(tasks)) == tasks.map_values(|t: Task| line_of(t)),
    decreases tasks.len(),
{
    let e = Seq::<char>::empty();
    if tasks.len() == 0 {
        assert(tasks.map_values(|t: Task| line_of(t)).push(e) =~= seq![e]);
    } else {
        let pre = tasks.drop_last();
        let t = tasks.last();
        assert forall|i: int| 0 <= i < pre.len() implies storable(#[trigger] pre[i]) by {
            assert(pre[i] == tasks[i]);
        }
        lemma_lines_of_store_text(pre);
        lemma_line_one_line(t);
        let l = line_of(t);
        let x = store_text(pre);
        assert(store_text(tasks) =~= x + (l + seq!['\n']));
        lemma_split_lines_append(x, l + seq!['\n'], e);
        lemma_split_one_line(l, seq!['\n'], e);
        let nl = seq!['\n'];
        assert(nl.subrange(1, 1) =~= e);
        assert(e + l =~= l);
        assert(split_lines(nl, l) == seq![l] + split_lines(e, e));
        assert(tasks.map_values(|t: Task| line_of(t)) =~= pre.map_values(|t: Task| line_of(t)).push(
            l,
        ));
        assert(split_lines(store_text(tasks), e) =~= tasks.map_values(|t: Task| line_of(t)).push(e));
    }
    let m = tasks.map_values(|t: Task| line_of(t));
    assert(m.push(e).drop_last() =~= m);
}

/// Round trip of the whole file: the text written for storable records reads
/// back as those records, in order.
pub proof fn lemma_store_round_trip(tasks: Seq<Task>)
    requires
        forall|i: int| 0 <= i < tasks.len() ==> storable(#[trigger] tasks[i]),
    ensures
        all_records(store_text(tasks)),
        lines_of(store_text(tasks)).len() == tasks.len(),
        forall|i: int|
            0 <= i < tasks.len() ==> record_of(lines_of(store_text(tasks))[i]) == Some(
                #[trigger] tasks[i].stored(),
            ),
{
    lemma_lines_of_store_text(tasks);
    let ls = lines_of(store_text(tasks));
    assert forall|i: int| 0 <= i < tasks.len() implies record_of(ls[i]) == Some(
        #[trigger] tasks[i].stored(),
    ) by {
        lemma_round_trip(tasks[i]);
    }
    assert forall|i: int| 0 <= i < ls.len() implies #[trigger] record_of(ls[i]).is_some() by {
        lemma_round_trip(tasks[i]);
    }
}

/// Marking the record at `i` done changes only its line of the file, which
/// then ends in `true`; every other line, their number and order stay.
pub proof fn lemma_done_rewrites_one_line(tasks: Seq<Task>, i: int)
    requires
        forall|k: int| 0 <= k < tasks.len() ==> storable(#[trigger] tasks[k]),
        0 <= i < tasks.len(),
    ensures
        lines_of(store_text(tasks.update(i, finished(tasks[i])))) == lines_of(
            store_text(tasks),
        ).update(i, line_of(finished(tasks[i]))),
        line_of(finished(tasks[i])) == tasks[i].id@ + (seq!['|'] + (escape(tasks[i].name@) + (
        seq!['|'] + (int_text(tasks[i].date.secs as int) + (seq!['|'] + bool_text(true)))))),
{
    let u = tasks.update(i, finished(tasks[i]));
    assert forall|k: int| 0 <= k < u.len() implies storable(#[trigger] u[k]) by {
        if k != i {
            assert(u[k] == tasks[k]);
        }
    }
    lemma_lines_of_store_text(tasks);
    lemma_lines_of_store_text(u);
    assert(u.map_values(|t: Task| line_of(t)) =~= tasks.map_values(|t: Task| line_of(t)).update(
        i,
        line_of(finished(tasks[i])),
    ));
}

} // verus!
