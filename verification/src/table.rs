//! Printing rows of fields as a table.
//!
//! Composes a string and returns it; printing is the binary's job.
use vstd::prelude::*;
use crate::cli::{trim, trimmed, TailArgs};
use crate::text::{append, chars_of, decimal, from_chars, owned, push_char, push_decimal, push_repeat, repeat};

verus! {

/// One structured log event: when it happened, and its fields by name.
#[derive(Debug, Clone, PartialEq)]
pub struct Event {
    pub time: String,
    /// Field names and values, in the order they were written.
    pub fields: Vec<(String, String)>,
}

/// Wide enough to read a sentence, narrow enough that a column of them still
/// lines up on an 80-column terminal.
pub const MAX_CELL: usize = 44;

/// The value of the first field of `fields` (among the first `n`) named `name`.
pub open spec fn field_upto(fields: Seq<(String, String)>, name: Seq<char>, n: int) -> Option<Seq<char>>
    decreases n,
{
    if n <= 0 {
        None
    } else {
        match field_upto(fields, name, n - 1) {
            Some(v) => Some(v),
            None => if fields[n - 1].0@ == name {
                Some(fields[n - 1].1@)
            } else {
                None
            },
        }
    }
}

/// The value of field `name` of an event.
pub open spec fn field_of(e: Event, name: Seq<char>) -> Option<Seq<char>> {
    field_upto(e.fields@, name, e.fields@.len() as int)
}

/// What a cell shows: the field's value, or a dash when the event has no
/// such field. Absent and empty must not look alike.
pub open spec fn cell(e: Event, name: Seq<char>) -> Seq<char> {
    match field_of(e, name) {
        Some(v) => v,
        None => "-"@,
    }
}

/// `s` cut to `n` characters, the last of them an ellipsis when anything
/// was cut.
pub open spec fn clipped(s: Seq<char>, n: nat) -> Seq<char> {
    if s.len() <= n {
        s
    } else {
        s.subrange(0, if n == 0 { 0 } else { n - 1 }).push('\u{2026}')
    }
}

/// `s` padded with spaces to at least `w` characters (`{:<w}`).
pub open spec fn padded(s: Seq<char>, w: nat) -> Seq<char> {
    if s.len() < w {
        s + repeat(' ', (w - s.len()) as nat)
    } else {
        s
    }
}

/// The parts, separated by `sep`.
pub open spec fn joined(parts: Seq<Seq<char>>, sep: Seq<char>) -> Seq<char>
    decreases parts.len(),
{
    if parts.len() == 0 {
        seq![]
    } else if parts.len() == 1 {
        parts[0]
    } else {
        joined(parts.drop_last(), sep) + sep + parts.last()
    }
}

/// The names of the fields of the events, event after event, in order.
pub open spec fn all_keys(events: Seq<Event>) -> Seq<Seq<char>>
    decreases events.len(),
{
    if events.len() == 0 {
        seq![]
    } else {
        all_keys(events.drop_last()) + events.last().fields@.map_values(|p: (String, String)| p.0@)
    }
}

/// Each name once, in the order of its first appearance.
pub open spec fn first_appearances(names: Seq<Seq<char>>) -> Seq<Seq<char>>
    decreases names.len(),
{
    if names.len() == 0 {
        seq![]
    } else {
        let seen = first_appearances(names.drop_last());
        if seen.contains(names.last()) {
            seen
        } else {
            seen.push(names.last())
        }
    }
}

/// The columns of a table: those asked for, or every field seen.
pub open spec fn columns_of(asked: Seq<Seq<char>>, events: Seq<Event>) -> Seq<Seq<char>> {
    if asked.len() > 0 {
        asked
    } else {
        first_appearances(all_keys(events))
    }
}

fn contains_name(v: &Vec<String>, name: &String) -> (b: bool)
    ensures
        b == v.deep_view().contains(name@),
{
    let mut i: usize = 0;
    while i < v.len()
        invariant
            i <= v@.len(),
            forall|t: int| 0 <= t < i ==> v.deep_view()[t] != name@,
        decreases v.len() - i,
    {
        if v[i] == *name {
            assert(v.deep_view()[i as int] == name@);
            return true;
        }
        assert(v.deep_view()[i as int] == v@[i as int]@);
        i = i + 1;
    }
    false
}

/// The columns to show: the ones named with `--show`, or, when none was
/// named, every field seen, in the order first seen. You cannot name a
/// column you have never seen.
pub fn columns(opts: &TailArgs, found: &[Event]) -> (cols: Vec<String>)
    ensures
        cols.deep_view() == columns_of(opts.columns.deep_view(), found@),
{
    if opts.columns.len() > 0 {
        let c = opts.columns.clone();
        assert(c.deep_view() =~= opts.columns.deep_view()) by {
            assert forall|t: int| 0 <= t < c@.len() implies c.deep_view()[t] == opts.columns.deep_view()[t] by {
                assert(c@[t] == opts.columns@[t]);
            }
        }
        return c;
    }
    let mut seen: Vec<String> = Vec::new();
    let mut i: usize = 0;
    assert(found@.subrange(0, 0) =~= Seq::<Event>::empty());
    assert(seen.deep_view() =~= Seq::<Seq<char>>::empty());
    while i < found.len()
        invariant
            i <= found@.len(),
            seen.deep_view() == first_appearances(all_keys(found@.subrange(0, i as int))),
        decreases found.len() - i,
    {
        let e = &found[i];
        let ghost before = all_keys(found@.subrange(0, i as int));
        let ghost keys = e.fields@.map_values(|p: (String, String)| p.0@);
        assert(before + keys.subrange(0, 0) =~= before);
        let mut j: usize = 0;
        while j < e.fields.len()
            invariant
                j <= e.fields@.len(),
                keys == e.fields@.map_values(|p: (String, String)| p.0@),
                seen.deep_view() == first_appearances(before + keys.subrange(0, j as int)),
            decreases e.fields.len() - j,
        {
            let k = &e.fields[j].0;
            proof {
                assert((before + keys.subrange(0, j + 1)).drop_last() =~= before + keys.subrange(0, j as int));
                assert((before + keys.subrange(0, j + 1)).last() == k@);
            }
            if !contains_name(&seen, k) {
                let ghost dv = seen.deep_view();
                seen.push(k.clone());
                assert(seen.deep_view() =~= dv.push(k@));
            }
            j = j + 1;
        }
        proof {
            assert(found@.subrange(0, i + 1).drop_last() =~= found@.subrange(0, i as int));
            assert(keys.subrange(0, keys.len() as int) =~= keys);
        }
        i = i + 1;
    }
    assert(found@.subrange(0, found@.len() as int) =~= found@);
    seen
}

/// A string of at most `n` characters: `s` itself when it fits, otherwise
/// its first `n - 1` characters and a visible mark. Clips on characters,
/// not on bytes.
pub fn clip(s: &str, n: usize) -> (c: String)
    ensures
        c@ == clipped(s@, n as nat),
{
    let cs = chars_of(s);
    if cs.len() <= n {
        return from_chars(cs.as_slice());
    }
    let keep = if n == 0 {
        0
    } else {
        n - 1
    };
    let mut v: Vec<char> = Vec::new();
    let mut i: usize = 0;
    while i < keep
        invariant
            keep < cs@.len(),
            i <= keep,
            v@ == cs@.subrange(0, i as int),
        decreases keep - i,
    {
        v.push(cs[i]);
        i = i + 1;
        assert(v@ =~= cs@.subrange(0, i as int));
    }
    v.push('\u{2026}');
    from_chars(v.as_slice())
}

/// A clipped text is never wider than its limit (one mark when the limit
/// is zero): what fits is kept whole, and what does not keeps its first
/// characters, one fewer than the limit, then a visible mark.
pub proof fn law_a_clip_keeps_the_start_and_marks_the_cut(s: Seq<char>, n: nat)
    ensures
        s.len() <= n ==> clipped(s, n) == s,
        s.len() > n ==> {
            &&& clipped(s, n).len() == if n == 0 {
                1
            } else {
                n
            }
            &&& clipped(s, n).last() == '\u{2026}'
            &&& forall|i: int| 0 <= i < clipped(s, n).len() - 1 ==> #[trigger] clipped(s, n)[i] == s[i]
        },
{
}

/// What a cell of a row shows: the field's value or a dash, clipped.
pub open spec fn cell_text(e: Event, c: Seq<char>) -> Seq<char> {
    clipped(cell(e, c), MAX_CELL as nat)
}

/// The width of column `c` over the first `n` events: its name, or its
/// widest cell if wider. Nothing is padded to a width the data never needs.
pub open spec fn width_upto(events: Seq<Event>, c: Seq<char>, n: int) -> nat
    decreases n,
{
    if n <= 0 {
        c.len()
    } else {
        let w = width_upto(events, c, n - 1);
        let t = cell_text(events[n - 1], c).len();
        if t > w {
            t
        } else {
            w
        }
    }
}

pub open spec fn width(events: Seq<Event>, c: Seq<char>) -> nat {
    width_upto(events, c, events.len() as int)
}

pub open spec fn header_cells(events: Seq<Event>, cols: Seq<Seq<char>>) -> Seq<Seq<char>> {
    cols.map_values(|c: Seq<char>| padded(c, width(events, c)))
}

pub open spec fn row_cells(e: Event, events: Seq<Event>, cols: Seq<Seq<char>>) -> Seq<Seq<char>> {
    cols.map_values(|c: Seq<char>| padded(cell_text(e, c), width(events, c)))
}

/// One line of the table: the first column nine wide, then the cells two
/// spaces apart.
pub open spec fn line(first: Seq<char>, cells: Seq<Seq<char>>) -> Seq<char> {
    padded(first, 9) + " "@ + joined(cells, "  "@) + "\n"@
}

/// The lines of the first `n` events.
pub open spec fn rows_upto(events: Seq<Event>, cols: Seq<Seq<char>>, n: int) -> Seq<char>
    decreases n,
{
    if n <= 0 {
        seq![]
    } else {
        rows_upto(events, cols, n - 1) + line(events[n - 1].time@, row_cells(events[n - 1], events, cols))
    }
}

/// The whole table: a header, a rule as wide as the header, one line per
/// event.
pub open spec fn rendered(events: Seq<Event>, cols: Seq<Seq<char>>) -> Seq<char> {
    let head = header_cells(events, cols);
    line("time"@, head) + repeat('-', 9 + joined(head, "  "@).len() + 1) + "\n"@ + rows_upto(
        events,
        cols,
        events.len() as int,
    )
}

proof fn lemma_first_appearances(names: Seq<Seq<char>>)
    ensures
        forall|i: int, j: int|
            0 <= i < j < first_appearances(names).len() ==> #[trigger] first_appearances(names)[i]
                != #[trigger] first_appearances(names)[j],
        forall|x: Seq<char>| #[trigger] first_appearances(names).contains(x) <==> names.contains(x),
    decreases names.len(),
{
    if names.len() > 0 {
        let init = names.drop_last();
        lemma_first_appearances(init);
        let seen = first_appearances(init);
        assert forall|x: Seq<char>| #[trigger] first_appearances(names).contains(x) <==> names.contains(x) by {
            if names.contains(x) && x != names.last() {
                let k = choose|k: int| 0 <= k < names.len() && names[k] == x;
                assert(init[k] == x);
                assert(init.contains(x));
            }
            if init.contains(x) {
                let k = choose|k: int| 0 <= k < init.len() && init[k] == x;
                assert(names[k] == x);
            }
            if x == names.last() {
                assert(names[names.len() - 1] == x);
                if !seen.contains(x) {
                    assert(seen.push(x)[seen.len() as int] == x);
                }
            }
            if !seen.contains(names.last()) && first_appearances(names).contains(x) && !seen.contains(x) {
                let k = choose|k: int| 0 <= k < first_appearances(names).len() && first_appearances(names)[k] == x;
                if k < seen.len() {
                    assert(seen[k] == x);
                }
            }
            if seen.contains(x) && !seen.contains(names.last()) {
                let k = choose|k: int| 0 <= k < seen.len() && seen[k] == x;
                assert(seen.push(names.last())[k] == x);
            }
        }
    }
}

/// A name is among the keys of the events exactly when some event has a
/// field of that name.
pub open spec fn some_field_named(events: Seq<Event>, x: Seq<char>) -> bool {
    exists|i: int, j: int|
        0 <= i < events.len() && 0 <= j < events[i].fields@.len() && (#[trigger] events[i].fields@[j]).0@ == x
}

proof fn lemma_all_keys(events: Seq<Event>, x: Seq<char>)
    ensures
        all_keys(events).contains(x) <==> some_field_named(events, x),
    decreases events.len(),
{
    if events.len() > 0 {
        let init = events.drop_last();
        let last = events.last();
        let tail = last.fields@.map_values(|p: (String, String)| p.0@);
        lemma_all_keys(init, x);
        let all = all_keys(events);
        assert(all == all_keys(init) + tail);
        if all.contains(x) {
            let k = choose|k: int| 0 <= k < all.len() && all[k] == x;
            if k < all_keys(init).len() {
                assert(all_keys(init)[k] == x);
                let (i, j) = choose|i: int, j: int|
                    0 <= i < init.len() && 0 <= j < init[i].fields@.len() && (#[trigger] init[i].fields@[j]).0@ == x;
                assert(events[i] == init[i]);
            } else {
                let j = k - all_keys(init).len();
                assert(tail[j] == x);
                assert(events[events.len() - 1].fields@[j].0@ == x);
            }
        }
        if some_field_named(events, x) {
            let (i, j) = choose|i: int, j: int|
                0 <= i < events.len() && 0 <= j < events[i].fields@.len() && (#[trigger] events[i].fields@[j]).0@ == x;
            if i < events.len() - 1 {
                assert(init[i] == events[i]);
                assert(some_field_named(init, x));
                let k = choose|k: int| 0 <= k < all_keys(init).len() && all_keys(init)[k] == x;
                assert(all[k] == x);
            } else {
                assert(tail[j] == x);
                assert(all[all_keys(init).len() + j] == x);
            }
        }
    }
}

/// When no column is asked for, the columns are every field name seen,
/// each exactly once: none missing, none twice, nothing else.
pub proof fn law_every_field_once(events: Seq<Event>)
    ensures
        forall|i: int, j: int|
            0 <= i < j < columns_of(seq![], events).len() ==> #[trigger] columns_of(seq![], events)[i]
                != #[trigger] columns_of(seq![], events)[j],
        forall|x: Seq<char>| #[trigger] columns_of(seq![], events).contains(x) <==> some_field_named(events, x),
{
    lemma_first_appearances(all_keys(events));
    assert forall|x: Seq<char>| #[trigger] columns_of(seq![], events).contains(x) <==> some_field_named(events, x) by {
        lemma_all_keys(events, x);
    }
}

/// A column is as wide as its name and as each of its cells.
proof fn lemma_width_covers(events: Seq<Event>, c: Seq<char>, n: int, t: int)
    requires
        0 <= t < n,
    ensures
        c.len() <= width_upto(events, c, n),
        cell_text(events[t], c).len() <= width_upto(events, c, n),
    decreases n,
{
    if n - 1 > t {
        lemma_width_covers(events, c, n - 1, t);
    } else {
        lemma_name_fits(events, c, n - 1);
    }
}

proof fn lemma_name_fits(events: Seq<Event>, c: Seq<char>, n: int)
    ensures
        c.len() <= width_upto(events, c, n),
    decreases n,
{
    if n > 0 {
        lemma_name_fits(events, c, n - 1);
    }
}

/// Two lists of cells of the same widths, one by one, join to the same width.
proof fn lemma_joined_same_width(a: Seq<Seq<char>>, b: Seq<Seq<char>>, sep: Seq<char>)
    requires
        a.len() == b.len(),
        forall|j: int| 0 <= j < a.len() ==> (#[trigger] a[j]).len() == b[j].len(),
    ensures
        joined(a, sep).len() == joined(b, sep).len(),
    decreases a.len(),
{
    if a.len() > 1 {
        lemma_joined_same_width(a.drop_last(), b.drop_last(), sep);
        assert(a.last().len() == b[b.len() - 1].len());
    } else if a.len() == 1 {
        assert(a[0].len() == b[0].len());
    }
}

/// The columns line up: in every row, each cell is exactly as wide as the
/// header of its column, the rule is as wide as the header line, and a row
/// whose time fits in nine characters is exactly as wide as the header.
pub proof fn law_the_columns_line_up(events: Seq<Event>, cols: Seq<Seq<char>>, k: int)
    requires
        0 <= k < events.len(),
    ensures
        forall|j: int|
            0 <= j < cols.len() ==> (#[trigger] row_cells(events[k], events, cols)[j]).len()
                == header_cells(events, cols)[j].len() && header_cells(events, cols)[j].len()
                == width(events, cols[j]),
        9 + joined(header_cells(events, cols), "  "@).len() + 1 + 1 == line(
            "time"@,
            header_cells(events, cols),
        ).len(),
        events[k].time@.len() <= 9 ==> line(events[k].time@, row_cells(events[k], events, cols)).len()
            == line("time"@, header_cells(events, cols)).len(),
{
    let head = header_cells(events, cols);
    let row = row_cells(events[k], events, cols);
    assert forall|j: int| 0 <= j < cols.len() implies (#[trigger] row[j]).len() == head[j].len()
        && head[j].len() == width(events, cols[j]) by {
        lemma_width_covers(events, cols[j], events.len() as int, k);
    }
    assert forall|j: int| 0 <= j < head.len() implies (#[trigger] head[j]).len() == row[j].len() by {
        lemma_width_covers(events, cols[j], events.len() as int, k);
    }
    lemma_joined_same_width(head, row, "  "@);
    reveal_strlit("time");
    reveal_strlit(" ");
    reveal_strlit("\n");
    assert(padded("time"@, 9).len() == 9);
}

/// The value of the field `name` of `e`, if it has one.
fn field<'a>(e: &'a Event, name: &String) -> (r: Option<&'a String>)
    ensures
        match r {
            Some(v) => field_of(*e, name@) == Some(v@),
            None => field_of(*e, name@) is None,
        },
{
    let mut i: usize = 0;
    while i < e.fields.len()
        invariant
            i <= e.fields@.len(),
            field_upto(e.fields@, name@, i as int) is None,
        decreases e.fields.len() - i,
    {
        if e.fields[i].0 == *name {
            proof {
                lemma_field_stays(e.fields@, name@, i + 1, e.fields@.len() as int);
            }
            return Some(&e.fields[i].1);
        }
        i = i + 1;
    }
    None
}

proof fn lemma_field_stays(f: Seq<(String, String)>, name: Seq<char>, n: int, m: int)
    requires
        0 < n <= m,
        field_upto(f, name, n) is Some,
    ensures
        field_upto(f, name, m) == field_upto(f, name, n),
    decreases m - n,
{
    if m > n {
        lemma_field_stays(f, name, n, m - 1);
    }
}

/// What the cell of `e` in column `c` shows.
fn cell_of(e: &Event, c: &String) -> (t: String)
    ensures
        t@ == cell_text(*e, c@),
{
    match field(e, c) {
        Some(v) => clip(v.as_str(), MAX_CELL),
        None => clip("-", MAX_CELL),
    }
}

/// Appends `s` padded with spaces to `w` characters.
fn push_padded(out: &mut String, s: &str, w: usize)
    ensures
        final(out)@ == old(out)@ + padded(s@, w as nat),
{
    let n = s.unicode_len();
    append(out, s);
    if n < w {
        push_repeat(out, ' ', w - n);
    }
}

/// Appends the parts, two spaces apart.
fn push_joined(out: &mut String, parts: &Vec<String>)
    ensures
        final(out)@ == old(out)@ + joined(parts.deep_view(), "  "@),
{
    let ghost pv = parts.deep_view();
    let mut i: usize = 0;
    while i < parts.len()
        invariant
            pv == parts.deep_view(),
            i <= parts@.len(),
            out@ == old(out)@ + joined(pv.subrange(0, i as int), "  "@),
        decreases parts.len() - i,
    {
        proof {
            assert(pv.subrange(0, i + 1).drop_last() =~= pv.subrange(0, i as int));
            assert(pv[i as int] == parts@[i as int]@);
        }
        if i > 0 {
            append(out, "  ");
        }
        append(out, parts[i].as_str());
        i = i + 1;
        proof {
            if i == 1 {
                assert(pv.subrange(0, 0) =~= Seq::<Seq<char>>::empty());
            }
            assert(out@ =~= old(out)@ + joined(pv.subrange(0, i as int), "  "@));
        }
    }
    assert(pv.subrange(0, pv.len() as int) =~= pv);
}

/// Appends one line of the table.
fn push_line(out: &mut String, first: &str, cells: &Vec<String>)
    ensures
        final(out)@ == old(out)@ + line(first@, cells.deep_view()),
{
    push_padded(out, first, 9);
    append(out, " ");
    push_joined(out, cells);
    append(out, "\n");
    assert(out@ =~= old(out)@ + line(first@, cells.deep_view()));
}

/// The width of column `c` over all the events.
fn width_of(found: &[Event], c: &String) -> (w: usize)
    ensures
        w == width(found@, c@),
{
    let mut w = c.as_str().unicode_len();
    let mut i: usize = 0;
    while i < found.len()
        invariant
            i <= found@.len(),
            w == width_upto(found@, c@, i as int),
        decreases found.len() - i,
    {
        let t = cell_of(&found[i], c);
        let n = t.as_str().unicode_len();
        if n > w {
            w = n;
        }
        i = i + 1;
    }
    w
}

/// Renders the events as a table of the given columns.
pub fn render(found: &[Event], cols: &[String]) -> (out: String)
    ensures
        out@ == rendered(found@, cols.deep_view()),
{
    let ghost cv = cols.deep_view();
    let mut widths: Vec<usize> = Vec::new();
    let mut head: Vec<String> = Vec::new();
    let mut i: usize = 0;
    while i < cols.len()
        invariant
            cv == cols.deep_view(),
            i <= cols@.len(),
            widths@.len() == i,
            forall|t: int| 0 <= t < i ==> #[trigger] widths@[t] == width(found@, cv[t]),
            head.deep_view() == header_cells(found@, cv).subrange(0, i as int),
        decreases cols.len() - i,
    {
        assert(cv[i as int] == cols@[i as int]@);
        let w = width_of(found, &cols[i]);
        widths.push(w);
        let mut h = String::new();
        push_padded(&mut h, cols[i].as_str(), w);
        let ghost hv = head.deep_view();
        head.push(h);
        assert(head.deep_view() =~= header_cells(found@, cv).subrange(0, i + 1)) by {
            assert(head.deep_view() =~= hv.push(h@));
        }
        i = i + 1;
    }
    assert(head.deep_view() =~= header_cells(found@, cv));
    let mut out = String::new();
    push_line(&mut out, "time", &head);
    let mut rule_text = String::new();
    push_joined(&mut rule_text, &head);
    let rule_len = rule_text.as_str().unicode_len();
    let ghost before_rule = out@;
    push_repeat(&mut out, '-', 10);
    push_repeat(&mut out, '-', rule_len);
    assert(out@ =~= before_rule + repeat('-', (9 + rule_len + 1) as nat));
    append(&mut out, "\n");
    let ghost top = out@;
    let mut r: usize = 0;
    while r < found.len()
        invariant
            cv == cols.deep_view(),
            r <= found@.len(),
            widths@.len() == cols@.len(),
            forall|t: int| 0 <= t < cols@.len() ==> #[trigger] widths@[t] == width(found@, cv[t]),
            out@ == top + rows_upto(found@, cv, r as int),
        decreases found.len() - r,
    {
        let e = &found[r];
        let mut cells: Vec<String> = Vec::new();
        let mut j: usize = 0;
        while j < cols.len()
            invariant
                cv == cols.deep_view(),
                j <= cols@.len(),
                widths@.len() == cols@.len(),
                forall|t: int| 0 <= t < cols@.len() ==> #[trigger] widths@[t] == width(found@, cv[t]),
                cells.deep_view() == row_cells(*e, found@, cv).subrange(0, j as int),
            decreases cols.len() - j,
        {
            assert(cv[j as int] == cols@[j as int]@);
            let t = cell_of(e, &cols[j]);
            let mut p = String::new();
            push_padded(&mut p, t.as_str(), widths[j]);
            let ghost dv = cells.deep_view();
            cells.push(p);
            assert(cells.deep_view() =~= row_cells(*e, found@, cv).subrange(0, j + 1)) by {
                assert(cells.deep_view() =~= dv.push(p@));
            }
            j = j + 1;
        }
        assert(cells.deep_view() =~= row_cells(*e, found@, cv));
        push_line(&mut out, e.time.as_str(), &cells);
        r = r + 1;
    }
    out
}

/// The events `tail` shows: the last `last` of those that matched.
pub open spec fn window(found: Seq<Event>, last: nat) -> Seq<Event> {
    if found.len() > last {
        found.subrange(found.len() - last, found.len() as int)
    } else {
        found
    }
}

/// The table `tail` prints: nothing when no event is shown.
pub open spec fn tail_table(found: Seq<Event>, last: nat, asked: Seq<Seq<char>>) -> Seq<char> {
    let shown = window(found, last);
    if shown.len() == 0 {
        seq![]
    } else {
        rendered(shown, columns_of(asked, shown))
    }
}

/// The line `tail` leaves beside its table. "Nothing matched" and "nothing
/// was piped in" are different problems, and say so.
pub open spec fn tail_note(found: Seq<Event>, last: nat, input: Seq<char>) -> Seq<char> {
    let shown = window(found, last);
    if shown.len() == 0 {
        "askable: no event matched"@ + if trimmed(input).len() == 0 {
            " (the input was empty)"@
        } else {
            seq![]
        }
    } else {
        "askable: "@ + decimal(found.len()) + " matched, "@ + decimal(shown.len()) + " shown"@
    }
}

/// What `tail` shows of the events that matched, read from `input`: the
/// table, then the note on what was matched and shown.
pub fn tail_report(found: &[Event], opts: &TailArgs, input: &str) -> (r: (String, String))
    ensures
        r.0@ == tail_table(found@, opts.last as nat, opts.columns.deep_view()),
        r.1@ == tail_note(found@, opts.last as nat, input@),
{
    let n = found.len();
    let start: usize = if n > opts.last {
        n - opts.last
    } else {
        0
    };
    let shown = vstd::slice::slice_subrange(found, start, n);
    assert(shown@ =~= window(found@, opts.last as nat));
    if shown.len() == 0 {
        let c = chars_of(input);
        let t = trim(&c, 0, c.len());
        assert(c@.subrange(0, c@.len() as int) =~= input@);
        let mut note = owned("askable: no event matched");
        if t.as_str().unicode_len() == 0 {
            append(&mut note, " (the input was empty)");
        } else {
            assert(note@ =~= note@ + Seq::<char>::empty());
        }
        return (String::new(), note);
    }
    let cols = columns(opts, shown);
    let table = render(shown, cols.as_slice());
    let mut note = owned("askable: ");
    push_decimal(&mut note, n as u64);
    append(&mut note, " matched, ");
    push_decimal(&mut note, shown.len() as u64);
    append(&mut note, " shown");
    (table, note)
}

} // verus!
