//! Rendering of diff events into indentation-aware, optionally colorized text.
//!
//! Nesting depth maps to a two-space indent per level, applied here rather
//! than tracked by the diff engine. Equal runs longer than the context
//! threshold of three elements show only their first three and last three
//! elements, with no placeholder line for the elided middle, so long unchanged
//! regions cannot blow up the output.

use vstd::prelude::*;

use crate::order::str_views;
use crate::seqdiff::EditOp;
use crate::seqdiff::edit_script_of;
use crate::seqdiff::valid_script;
use crate::seqdiff::valid_script_from;

verus! {

/// One structured observation of the diff engine, produced in recursion
/// order. `EnterPair` opens a subtree scope and `LeavePair` closes it again;
/// `LeavePair` renders no text of its own, it only returns to the enclosing
/// indent level.
#[derive(Debug)]
pub enum DiffEvent {
    /// A pair of derivations whose comparison produced visible information.
    EnterPair { old_id: String, new_id: String },
    /// Closes the innermost open `EnterPair` scope.
    LeavePair,
    /// The labelled values differ, but exactly this change was already shown
    /// elsewhere in the same run.
    AlreadyCompared { label: String },
    /// The labelled values differ; `ops` is the edit script between them.
    ValueChanged { label: String, old_items: Vec<String>, new_items: Vec<String>, ops: Vec<EditOp> },
}

/// A `ValueChanged` event carries exactly the edit script computed for its
/// own two sequences; in particular the script fits them.
pub open spec fn event_wf(e: DiffEvent) -> bool {
    match e {
        DiffEvent::ValueChanged { label, old_items, new_items, ops } => {
            &&& ops@ == edit_script_of(str_views(old_items@), str_views(new_items@))
            &&& valid_script(ops@, str_views(old_items@), str_views(new_items@))
        },
        _ => true,
    }
}

pub open spec fn red_code() -> Seq<char> {
    "\u{1b}[31m"@
}

pub open spec fn green_code() -> Seq<char> {
    "\u{1b}[32m"@
}

pub open spec fn yellow_code() -> Seq<char> {
    "\u{1b}[33m"@
}

pub open spec fn bold_code() -> Seq<char> {
    "\u{1b}[1m"@
}

pub open spec fn dim_code() -> Seq<char> {
    "\u{1b}[2m"@
}

pub open spec fn reset_code() -> Seq<char> {
    "\u{1b}[0m"@
}

/// A piece of text, wrapped in a style code and a reset when color is on.
pub open spec fn styled(code: Seq<char>, s: Seq<char>, color: bool) -> Seq<char> {
    if color {
        code + s + reset_code()
    } else {
        s
    }
}

/// The indent of a nesting depth: two spaces per level.
pub open spec fn indent_of(depth: nat) -> Seq<char>
    decreases depth,
{
    if depth == 0 {
        Seq::empty()
    } else {
        indent_of((depth - 1) as nat) + "  "@
    }
}

/// One rendered line for each of `items[from..to]`, each carrying the indent,
/// a marker and a style.
pub open spec fn marked_lines(
    items: Seq<Seq<char>>,
    from: int,
    to: int,
    marker: Seq<char>,
    code: Seq<char>,
    ind: Seq<char>,
    color: bool,
) -> Seq<Seq<char>> {
    Seq::new((to - from) as nat, |t: int| ind + styled(code, marker + items[from + t], color))
}

/// The op's segments lie inside the two sequences.
pub open spec fn op_in_range(op: EditOp, old_n: int, new_n: int) -> bool {
    match op {
        EditOp::Equal { old_index, new_index, len } => old_index + len <= old_n && new_index + len
            <= new_n,
        EditOp::Delete { old_index, old_len, new_index } => old_index + old_len <= old_n,
        EditOp::Insert { old_index, new_index, new_len } => new_index + new_len <= new_n,
        EditOp::Replace { old_index, old_len, new_index, new_len } => old_index + old_len <= old_n
            && new_index + new_len <= new_n,
    }
}

/// Every op of a valid script lies inside the two sequences.
pub proof fn lemma_script_ops_in_range(
    ops: Seq<EditOp>,
    old: Seq<Seq<char>>,
    new: Seq<Seq<char>>,
    oi: int,
    ni: int,
)
    requires
        valid_script_from(ops, old, new, oi, ni),
    ensures
        forall|k: int|
            0 <= k < ops.len() ==> op_in_range(#[trigger] ops[k], old.len() as int, new.len() as int),
    decreases ops.len(),
{
    if ops.len() > 0 {
        match ops[0] {
            EditOp::Equal { old_index, new_index, len } => {
                lemma_script_ops_in_range(ops.drop_first(), old, new, oi + len, ni + len);
            },
            EditOp::Delete { old_index, old_len, new_index } => {
                lemma_script_ops_in_range(ops.drop_first(), old, new, oi + old_len, ni);
            },
            EditOp::Insert { old_index, new_index, new_len } => {
                lemma_script_ops_in_range(ops.drop_first(), old, new, oi, ni + new_len);
            },
            EditOp::Replace { old_index, old_len, new_index, new_len } => {
                lemma_script_ops_in_range(
                    ops.drop_first(),
                    old,
                    new,
                    oi + old_len,
                    ni + new_len,
                );
            },
        }
        assert forall|k: int| 0 <= k < ops.len() implies op_in_range(
            #[trigger] ops[k],
            old.len() as int,
            new.len() as int,
        ) by {
            if k > 0 {
                assert(ops[k] == ops.drop_first()[k - 1]);
                assert(op_in_range(ops.drop_first()[k - 1], old.len() as int, new.len() as int));
            }
        }
    }
}

/// The lines one op renders to. Context lines come from the new side; an
/// equal run longer than three elements shows its first three and last three
/// elements only.
pub open spec fn op_lines(
    op: EditOp,
    old: Seq<Seq<char>>,
    new: Seq<Seq<char>>,
    ind: Seq<char>,
    color: bool,
) -> Seq<Seq<char>> {
    match op {
        EditOp::Equal { old_index, new_index, len } => {
            if len > 3 {
                marked_lines(new, new_index as int, new_index + 3, "  "@, dim_code(), ind, color)
                    + marked_lines(
                    new,
                    new_index + len - 3,
                    new_index + len,
                    "  "@,
                    dim_code(),
                    ind,
                    color,
                )
            } else {
                marked_lines(new, new_index as int, new_index + len, "  "@, dim_code(), ind, color)
            }
        },
        EditOp::Delete { old_index, old_len, new_index } => marked_lines(
            old,
            old_index as int,
            old_index + old_len,
            "- "@,
            red_code(),
            ind,
            color,
        ),
        EditOp::Insert { old_index, new_index, new_len } => marked_lines(
            new,
            new_index as int,
            new_index + new_len,
            "+ "@,
            green_code(),
            ind,
            color,
        ),
        EditOp::Replace { old_index, old_len, new_index, new_len } => marked_lines(
            old,
            old_index as int,
            old_index + old_len,
            "- "@,
            red_code(),
            ind,
            color,
        ) + marked_lines(new, new_index as int, new_index + new_len, "+ "@, green_code(), ind, color),
    }
}

/// Law: the context window bounds an equal run's rendered size. A run of
/// length over three renders exactly six context lines however long it is;
/// a run of length at most three is shown in full, one line per element.
/// Deleted, inserted and replaced runs render one line per element.
pub proof fn lemma_context_window_bound(
    op: EditOp,
    old: Seq<Seq<char>>,
    new: Seq<Seq<char>>,
    ind: Seq<char>,
    color: bool,
)
    ensures
        op_lines(op, old, new, ind, color).len() == match op {
            EditOp::Equal { len, .. } => if len > 3 {
                6int
            } else {
                len as int
            },
            EditOp::Delete { old_len, .. } => old_len as int,
            EditOp::Insert { new_len, .. } => new_len as int,
            EditOp::Replace { old_len, new_len, .. } => old_len + new_len,
        },
{
}

/// The lines a whole script renders to, op by op.
pub open spec fn script_lines(
    ops: Seq<EditOp>,
    old: Seq<Seq<char>>,
    new: Seq<Seq<char>>,
    ind: Seq<char>,
    color: bool,
) -> Seq<Seq<char>>
    decreases ops.len(),
{
    if ops.len() == 0 {
        Seq::empty()
    } else {
        script_lines(ops.drop_last(), old, new, ind, color) + op_lines(
            ops.last(),
            old,
            new,
            ind,
            color,
        )
    }
}

/// The two lines opening a pair's scope: the old and the new identifier.
pub open spec fn enter_lines(
    old_id: Seq<char>,
    new_id: Seq<char>,
    ind: Seq<char>,
    color: bool,
) -> Seq<Seq<char>> {
    seq![
        ind + styled(red_code(), "- "@ + old_id, color),
        ind + styled(green_code(), "+ "@ + new_id, color),
    ]
}

pub open spec fn notice_line(label: Seq<char>, ind: Seq<char>, color: bool) -> Seq<Seq<char>> {
    seq![ind + styled(yellow_code(), label + " already compared"@, color)]
}

pub open spec fn header_line(label: Seq<char>, ind: Seq<char>, color: bool) -> Seq<Seq<char>> {
    seq![ind + styled(bold_code(), label + " changed:"@, color)]
}

/// The lines of `events[i..]`, rendered at `depth`. A `LeavePair` below depth
/// zero stays at depth zero.
pub open spec fn events_lines_from(
    events: Seq<DiffEvent>,
    i: int,
    depth: nat,
    color: bool,
) -> Seq<Seq<char>>
    decreases events.len() - i,
{
    if !(0 <= i < events.len()) {
        Seq::empty()
    } else {
        match events[i] {
            DiffEvent::EnterPair { old_id, new_id } => enter_lines(
                old_id@,
                new_id@,
                indent_of(depth),
                color,
            ) + events_lines_from(events, i + 1, depth + 1, color),
            DiffEvent::LeavePair => events_lines_from(
                events,
                i + 1,
                if depth > 0 {
                    (depth - 1) as nat
                } else {
                    0
                },
                color,
            ),
            DiffEvent::AlreadyCompared { label } => notice_line(label@, indent_of(depth), color)
                + events_lines_from(events, i + 1, depth, color),
            DiffEvent::ValueChanged { label, old_items, new_items, ops } => header_line(
                label@,
                indent_of(depth),
                color,
            ) + script_lines(
                ops@,
                str_views(old_items@),
                str_views(new_items@),
                indent_of(depth),
                color,
            ) + events_lines_from(events, i + 1, depth, color),
        }
    }
}

/// The rendered lines of an event stream, top level first.
pub open spec fn events_lines(events: Seq<DiffEvent>, color: bool) -> Seq<Seq<char>> {
    events_lines_from(events, 0, 0, color)
}

/// All lines joined, each closed by a newline.
pub open spec fn joined(lines: Seq<Seq<char>>) -> Seq<char>
    decreases lines.len(),
{
    if lines.len() == 0 {
        Seq::empty()
    } else {
        joined(lines.drop_last()) + lines.last() + "\n"@
    }
}

/// A join of one or more lines is never empty.
pub proof fn lemma_joined_nonempty(lines: Seq<Seq<char>>)
    requires
        lines.len() > 0,
    ensures
        joined(lines).len() > 0,
{
    reveal_strlit("\n");
}

fn make_line(ind: &String, code: &str, body: String, color: bool) -> (r: String)
    ensures
        r@ == ind@ + styled(code@, body@, color),
{
    let mut line = ind.clone();
    if color {
        line.append(code);
        line.append(body.as_str());
        line.append("\u{1b}[0m");
    } else {
        line.append(body.as_str());
    }
    line
}

/// A marker followed by one item, the body of one rendered line.
fn marked_body(marker: &str, item: &String) -> (r: String)
    ensures
        r@ == marker@ + item@,
{
    let mut body = String::from_str(marker);
    body.append(item.as_str());
    body
}

/// Appends one line per element of `items[from..to]`.
fn push_marked(
    lines: &mut Vec<String>,
    items: &Vec<String>,
    from: usize,
    to: usize,
    marker: &str,
    code: &str,
    ind: &String,
    color: bool,
)
    requires
        from <= to <= items@.len(),
    ensures
        str_views(final(lines)@) == str_views(old(lines)@) + marked_lines(
            str_views(items@),
            from as int,
            to as int,
            marker@,
            code@,
            ind@,
            color,
        ),
{
    let ghost target = marked_lines(
        str_views(items@),
        from as int,
        to as int,
        marker@,
        code@,
        ind@,
        color,
    );
    let mut t = from;
    proof {
        assert(str_views(lines@) =~= str_views(old(lines)@) + target.take(0));
    }
    while t < to
        invariant
            from <= t <= to <= items@.len(),
            target == marked_lines(
                str_views(items@),
                from as int,
                to as int,
                marker@,
                code@,
                ind@,
                color,
            ),
            str_views(lines@) =~= str_views(old(lines)@) + target.take(t - from),
        decreases to - t,
    {
        let line = make_line(ind, code, marked_body(marker, &items[t]), color);
        proof {
            assert(str_views(items@)[t as int] == items@[t as int]@);
            assert(target[t - from] == ind@ + styled(
                code@,
                marker@ + str_views(items@)[from + (t - from)],
                color,
            ));
            assert(line@ == target[t - from]);
            assert(target.take(t + 1 - from) =~= target.take(t - from).push(target[t - from]));
        }
        let ghost pre_lines = lines@;
        lines.push(line);
        proof {
            assert(str_views(lines@) =~= str_views(pre_lines).push(line@));
            assert((str_views(old(lines)@) + target.take(t - from)).push(target[t - from]) =~= str_views(
                old(lines)@,
            ) + target.take(t + 1 - from));
        }
        t = t + 1;
    }
    proof {
        assert(target.take(to - from) =~= target);
    }
}

/// Appends the lines of one op.
fn render_op(
    lines: &mut Vec<String>,
    op: &EditOp,
    old_items: &Vec<String>,
    new_items: &Vec<String>,
    ind: &String,
    color: bool,
)
    requires
        op_in_range(*op, old_items@.len() as int, new_items@.len() as int),
    ensures
        str_views(final(lines)@) == str_views(old(lines)@) + op_lines(
            *op,
            str_views(old_items@),
            str_views(new_items@),
            ind@,
            color,
        ),
{
    proof {
        assert(old_items@.len() == old_items.len());
        assert(new_items@.len() == new_items.len());
    }
    match *op {
        EditOp::Equal { old_index: _, new_index, len } => {
            if len > 3 {
                push_marked(lines, new_items, new_index, new_index + 3, "  ", "\u{1b}[2m", ind, color);
                push_marked(
                    lines,
                    new_items,
                    new_index + len - 3,
                    new_index + len,
                    "  ",
                    "\u{1b}[2m",
                    ind,
                    color,
                );
                proof {
                    assert(str_views(lines@) =~= str_views(old(lines)@) + op_lines(
                        *op,
                        str_views(old_items@),
                        str_views(new_items@),
                        ind@,
                        color,
                    ));
                }
            } else {
                push_marked(lines, new_items, new_index, new_index + len, "  ", "\u{1b}[2m", ind, color);
            }
        },
        EditOp::Delete { old_index, old_len, new_index: _ } => {
            push_marked(lines, old_items, old_index, old_index + old_len, "- ", "\u{1b}[31m", ind, color);
        },
        EditOp::Insert { old_index: _, new_index, new_len } => {
            push_marked(lines, new_items, new_index, new_index + new_len, "+ ", "\u{1b}[32m", ind, color);
        },
        EditOp::Replace { old_index, old_len, new_index, new_len } => {
            push_marked(lines, old_items, old_index, old_index + old_len, "- ", "\u{1b}[31m", ind, color);
            push_marked(lines, new_items, new_index, new_index + new_len, "+ ", "\u{1b}[32m", ind, color);
            proof {
                assert(str_views(lines@) =~= str_views(old(lines)@) + op_lines(
                    *op,
                    str_views(old_items@),
                    str_views(new_items@),
                    ind@,
                    color,
                ));
            }
        },
    }
}

/// Appends the lines of a whole edit script.
pub fn render_script(
    lines: &mut Vec<String>,
    old_items: &Vec<String>,
    new_items: &Vec<String>,
    ops: &Vec<EditOp>,
    ind: &String,
    color: bool,
)
    requires
        valid_script(ops@, str_views(old_items@), str_views(new_items@)),
    ensures
        str_views(final(lines)@) == str_views(old(lines)@) + script_lines(
            ops@,
            str_views(old_items@),
            str_views(new_items@),
            ind@,
            color,
        ),
{
    let ghost old_v = str_views(old_items@);
    let ghost new_v = str_views(new_items@);
    proof {
        lemma_script_ops_in_range(ops@, old_v, new_v, 0, 0);
        assert(old_v.len() == old_items@.len());
        assert(new_v.len() == new_items@.len());
    }
    for k in 0..ops.len()
        invariant
            old_v == str_views(old_items@),
            new_v == str_views(new_items@),
            old_v.len() == old_items@.len(),
            new_v.len() == new_items@.len(),
            forall|j: int|
                0 <= j < ops@.len() ==> op_in_range(
                    #[trigger] ops@[j],
                    old_items@.len() as int,
                    new_items@.len() as int,
                ),
            str_views(lines@) =~= str_views(old(lines)@) + script_lines(
                ops@.take(k as int),
                old_v,
                new_v,
                ind@,
                color,
            ),
    {
        render_op(lines, &ops[k], old_items, new_items, ind, color);
        proof {
            assert(ops@.take(k + 1).drop_last() =~= ops@.take(k as int));
            assert(ops@.take(k + 1).last() == ops@[k as int]);
        }
    }
    proof {
        assert(ops@.take(ops@.len() as int) =~= ops@);
    }
}

/// The indent of a nesting depth, two spaces per level.
fn make_indent(depth: usize) -> (r: String)
    ensures
        r@ == indent_of(depth as nat),
{
    let mut ind = String::new();
    for j in 0..depth
        invariant
            ind@ == indent_of(j as nat),
    {
        ind.append("  ");
    }
    ind
}

/// Renders an event stream into lines, one subtree indented below its pair.
pub fn render_events(events: &Vec<DiffEvent>, color: bool) -> (lines: Vec<String>)
    requires
        forall|i: int| 0 <= i < events@.len() ==> event_wf(#[trigger] events@[i]),
    ensures
        str_views(lines@) == events_lines(events@, color),
{
    let mut lines: Vec<String> = Vec::new();
    let mut depth: usize = 0;
    let mut ind = String::new();
    proof {
        assert(str_views(lines@) =~= Seq::empty());
        assert(ind@ =~= indent_of(0));
    }
    for k in 0..events.len()
        invariant
            forall|i: int| 0 <= i < events@.len() ==> event_wf(#[trigger] events@[i]),
            depth <= k,
            ind@ == indent_of(depth as nat),
            events_lines(events@, color) =~= str_views(lines@) + events_lines_from(
                events@,
                k as int,
                depth as nat,
                color,
            ),
    {
        match &events[k] {
            DiffEvent::EnterPair { old_id, new_id } => {
                let l1 = make_line(&ind, "\u{1b}[31m", marked_body("- ", old_id), color);
                let l2 = make_line(&ind, "\u{1b}[32m", marked_body("+ ", new_id), color);
                lines.push(l1);
                lines.push(l2);
                depth = depth + 1;
                ind.append("  ");
            },
            DiffEvent::LeavePair => {
                if depth > 0 {
                    depth = depth - 1;
                    ind = make_indent(depth);
                }
            },
            DiffEvent::AlreadyCompared { label } => {
                let mut body = label.clone();
                body.append(" already compared");
                let l = make_line(&ind, "\u{1b}[33m", body, color);
                lines.push(l);
            },
            DiffEvent::ValueChanged { label, old_items, new_items, ops } => {
                let mut body = label.clone();
                body.append(" changed:");
                let l = make_line(&ind, "\u{1b}[1m", body, color);
                lines.push(l);
                render_script(&mut lines, old_items, new_items, ops, &ind, color);
            },
        }
    }
    proof {
        assert(events_lines_from(events@, events@.len() as int, depth as nat, color)
            =~= Seq::empty());
    }
    lines
}

/// Joins rendered lines into the final text, one newline after each line.
pub fn join_lines(lines: &Vec<String>) -> (text: String)
    ensures
        text@ == joined(str_views(lines@)),
{
    let mut text = String::new();
    let ghost lv = str_views(lines@);
    for k in 0..lines.len()
        invariant
            lv == str_views(lines@),
            lv.len() == lines@.len(),
            text@ == joined(lv.take(k as int)),
    {
        text.append(lines[k].as_str());
        text.append("\n");
        proof {
            assert(lv.take(k + 1).drop_last() =~= lv.take(k as int));
            assert(lv.take(k + 1).last() == lines@[k as int]@);
        }
    }
    proof {
        assert(lv.take(lv.len() as int) =~= lv);
    }
    text
}

} // verus!
