//! What the texts of the library say.

use vstd::prelude::*;

use crate::solve::{message_s, WbcError};
use crate::stack::{
    all_level_lines_s, describe_s, entry_line_s, entry_lines_s, level_lines_s, level_text_s,
    report_text_s, task_line_s, task_lines_s, Achieved, Lev, LevelAchieved, Named, Stk,
};
use crate::text::{decimal_s, digit_s, pad_left_s, pad_right_s};

verus! {

/// The value of a digit.
pub open spec fn digit_value_s(c: char) -> nat {
    if '0' <= c && c <= '9' {
        (c as int - '0' as int) as nat
    } else {
        10
    }
}

/// The number that a text of digits stands for.
pub open spec fn value_s(s: Seq<char>) -> nat
    decreases s.len(),
{
    if s.len() == 0 {
        0
    } else {
        value_s(s.drop_last()) * 10 + digit_value_s(s.last())
    }
}

/// A number is written in digits that stand for it, and without a leading zero.
pub proof fn law_decimal(n: nat)
    ensures
        value_s(decimal_s(n)) == n,
        forall|i: int| 0 <= i < decimal_s(n).len() ==> '0' <= #[trigger] decimal_s(n)[i] <= '9',
        decimal_s(n).len() > 0,
        n > 0 ==> decimal_s(n)[0] != '0',
        n == 0 ==> decimal_s(n).len() == 1,
    decreases n,
{
    let s = decimal_s(n);
    if n < 10 {
        assert(s.drop_last() =~= Seq::empty());
        assert(value_s(Seq::<char>::empty()) == 0);
    } else {
        law_decimal(n / 10);
        assert(s.drop_last() =~= decimal_s(n / 10));
        assert(s.last() == digit_s(n % 10));
    }
}

/// Padding keeps the text, and fills it up with spaces to the width.
pub proof fn law_padding(s: Seq<char>, w: nat)
    ensures
        ({
            let (r, l) = (pad_right_s(s, w), pad_left_s(s, w));
            &&& r.len() == (if s.len() < w {
                w
            } else {
                s.len()
            })
            &&& l.len() == r.len()
            &&& forall|i: int| 0 <= i < s.len() ==> #[trigger] r[i] == s[i]
            &&& forall|i: int| s.len() <= i < r.len() ==> #[trigger] r[i] == ' '
            &&& forall|i: int|
                0 <= i < s.len() ==> #[trigger] l[l.len() - s.len() + i] == s[i]
            &&& forall|i: int| 0 <= i < l.len() - s.len() ==> #[trigger] l[i] == ' '
        }),
{
}

/// `part` stands in `text` from place `at` on.
pub open spec fn part_at(text: Seq<char>, part: Seq<char>, at: int) -> bool {
    0 <= at && at + part.len() <= text.len() && text.subrange(at, at + part.len()) == part
}

/// `part` stands somewhere in `text`.
pub open spec fn mentions(text: Seq<char>, part: Seq<char>) -> bool {
    exists|at: int| part_at(text, part, at)
}

/// What stands in a piece of a text stands in the text.
proof fn lemma_mentions(a: Seq<char>, b: Seq<char>, c: Seq<char>, part: Seq<char>)
    requires
        mentions(b, part),
    ensures
        mentions(a + b + c, part),
{
    let at = choose|at: int| part_at(b, part, at);
    let t = a + b + c;
    assert(t.subrange(a.len() + at, a.len() + at + part.len()) =~= b.subrange(at, at + part.len()));
    assert(part_at(t, part, a.len() + at));
}

proof fn lemma_piece(a: Seq<char>, b: Seq<char>, c: Seq<char>)
    ensures
        mentions(a + b + c, b),
{
    assert((a + b + c).subrange(a.len() as int, (a.len() + b.len()) as int) =~= b);
    assert(part_at(a + b + c, b, a.len() as int));
}

/// The line of a task has its whole name and its numbers of equality and
/// inequality rows, in this order.
pub proof fn law_entry_line<T>(e: Named<T>)
    ensures
        mentions(entry_line_s(e), e.name),
        mentions(
            entry_line_s(e),
            " eq "@ + pad_left_s(decimal_s(e.task.a.nrows()), 3) + "  iq "@ + pad_left_s(
                decimal_s(e.task.d.nrows()),
                3,
            ),
        ),
{
    let (name, pad) = (e.name, pad_right_s(e.name, 24));
    let (p, q) = (
        pad_left_s(decimal_s(e.task.a.nrows()), 3),
        pad_left_s(decimal_s(e.task.d.nrows()), 3),
    );
    let line = entry_line_s(e);
    let fill = pad.subrange(name.len() as int, pad.len() as int);
    assert(line =~= "    "@ + name + (fill + " eq "@ + p + "  iq "@ + q + "\n"@));
    lemma_piece("    "@, name, fill + " eq "@ + p + "  iq "@ + q + "\n"@);
    let nums = " eq "@ + p + "  iq "@ + q;
    assert(line =~= ("    "@ + pad) + nums + "\n"@);
    lemma_piece("    "@ + pad, nums, "\n"@);
}

proof fn lemma_entry_lines<T>(entries: Seq<Named<T>>, n: nat, k: int, part: Seq<char>)
    requires
        0 <= k < n <= entries.len(),
        mentions(entry_line_s(entries[k]), part),
    ensures
        mentions(entry_lines_s(entries, n), part),
    decreases n,
{
    let e = Seq::<char>::empty();
    let t = entry_lines_s(entries, n);
    let head = entry_lines_s(entries, (n - 1) as nat);
    let last = entry_line_s(entries[n - 1]);
    if k < n - 1 {
        lemma_entry_lines(entries, (n - 1) as nat, k, part);
        lemma_mentions(e, head, last, part);
        assert(t =~= e + head + last);
    } else {
        lemma_mentions(head, last, e, part);
        assert(t =~= head + last + e);
    }
}

proof fn lemma_levels<T>(levels: Seq<Lev<T>>, n: nat, i: int, part: Seq<char>)
    requires
        0 <= i < n <= levels.len(),
        mentions(level_lines_s(levels[i], i as nat), part),
    ensures
        mentions(all_level_lines_s(levels, n), part),
    decreases n,
{
    let e = Seq::<char>::empty();
    let t = all_level_lines_s(levels, n);
    let head = all_level_lines_s(levels, (n - 1) as nat);
    let last = level_lines_s(levels[n - 1], (n - 1) as nat);
    if i < n - 1 {
        lemma_levels(levels, (n - 1) as nat, i, part);
        lemma_mentions(e, head, last, part);
        assert(t =~= e + head + last);
    } else {
        lemma_mentions(head, last, e, part);
        assert(t =~= head + last + e);
    }
}

/// A description says how many decision variables and levels there are, and names
/// every level with its number and every task of the stack, each task with its
/// line.
pub proof fn law_describe<T>(st: Stk<T>, i: int, k: int)
    requires
        0 <= i < st.levels.len(),
        0 <= k < st.levels[i].entries.len(),
    ensures
        mentions(
            describe_s(st),
            decimal_s(st.n) + " decision vars, "@ + decimal_s(st.levels.len()) + " levels"@,
        ),
        mentions(
            describe_s(st),
            "level "@ + decimal_s(i as nat) + " \""@ + st.levels[i].name + "\""@,
        ),
        mentions(describe_s(st), st.levels[i].entries[k].name),
        mentions(describe_s(st), entry_line_s(st.levels[i].entries[k])),
{
    let l = st.levels[i];
    let e = l.entries[k];
    let empty = Seq::<char>::empty();
    let line = entry_line_s(e);
    law_entry_line(e);
    lemma_piece(empty, line, empty);
    assert(empty + line + empty =~= line);
    let lines = entry_lines_s(l.entries, l.entries.len());
    lemma_entry_lines(l.entries, l.entries.len(), k, e.name);
    lemma_entry_lines(l.entries, l.entries.len(), k, line);
    let start = "  level "@ + decimal_s(i as nat) + " \""@;
    let text = level_lines_s(l, i as nat);
    let title = "level "@ + decimal_s(i as nat) + " \""@ + l.name + "\""@;
    reveal_strlit("  level ");
    reveal_strlit("level ");
    reveal_strlit("  ");
    reveal_strlit("\"\n");
    reveal_strlit("\"");
    reveal_strlit("\n");
    assert(text =~= "  "@ + title + ("\n"@ + lines));
    lemma_piece("  "@, title, "\n"@ + lines);
    let head = start + l.name + "\"\n"@;
    assert(text =~= head + lines + empty);
    lemma_mentions(head, lines, empty, e.name);
    lemma_mentions(head, lines, empty, line);
    let all = all_level_lines_s(st.levels, st.levels.len());
    lemma_levels(st.levels, st.levels.len(), i, title);
    lemma_levels(st.levels, st.levels.len(), i, e.name);
    lemma_levels(st.levels, st.levels.len(), i, line);
    let top = "stack ("@ + decimal_s(st.n) + " decision vars, "@ + decimal_s(st.levels.len())
        + " levels)\n"@;
    assert(describe_s(st) =~= top + all + empty);
    let counts = decimal_s(st.n) + " decision vars, "@ + decimal_s(st.levels.len()) + " levels"@;
    reveal_strlit(" levels)\n");
    reveal_strlit(" levels");
    reveal_strlit(")\n");
    assert(describe_s(st) =~= "stack ("@ + counts + (")\n"@ + all));
    lemma_piece("stack ("@, counts, ")\n"@ + all);
    lemma_mentions(top, all, empty, title);
    lemma_mentions(top, all, empty, e.name);
    lemma_mentions(top, all, empty, line);
}

proof fn lemma_task_lines(tasks: Seq<Achieved<String>>, n: nat, k: int, part: Seq<char>)
    requires
        0 <= k < n <= tasks.len(),
        mentions(task_line_s(tasks[k]), part),
    ensures
        mentions(task_lines_s(tasks, n), part),
    decreases n,
{
    let e = Seq::<char>::empty();
    let t = task_lines_s(tasks, n);
    let head = task_lines_s(tasks, (n - 1) as nat);
    let last = task_line_s(tasks[n - 1]);
    if k < n - 1 {
        lemma_task_lines(tasks, (n - 1) as nat, k, part);
        lemma_mentions(e, head, last, part);
        assert(t =~= e + head + last);
    } else {
        lemma_mentions(head, last, e, part);
        assert(t =~= head + last + e);
    }
}

proof fn lemma_report_levels(levels: Seq<LevelAchieved<String>>, n: nat, i: int, part: Seq<char>)
    requires
        0 <= i < n <= levels.len(),
        mentions(level_text_s(levels[i], i as nat), part),
    ensures
        mentions(report_text_s(levels, n), part),
    decreases n,
{
    let e = Seq::<char>::empty();
    let t = report_text_s(levels, n);
    let head = report_text_s(levels, (n - 1) as nat);
    let last = level_text_s(levels[n - 1], (n - 1) as nat);
    if i < n - 1 {
        lemma_report_levels(levels, (n - 1) as nat, i, part);
        lemma_mentions(e, head, last, part);
        assert(t =~= e + head + last);
    } else {
        lemma_mentions(head, last, e, part);
        assert(t =~= head + last + e);
    }
}

/// The line of a reported task has its whole name, its residual and its margin,
/// as far as it has them.
pub proof fn law_task_line(t: Achieved<String>)
    ensures
        mentions(task_line_s(t), t.name),
        t.eq_residual matches Some(r) ==> mentions(task_line_s(t), r@),
        t.iq_margin matches Some(m) ==> mentions(task_line_s(t), m@),
{
    let pad = pad_right_s(t.name, 24);
    let fill = pad.subrange(t.name.len() as int, pad.len() as int);
    let residual = match t.eq_residual {
        Some(r) => " ‖A·x−b‖ = "@ + r@,
        None => Seq::empty(),
    };
    let margin = match t.iq_margin {
        Some(m) => "  margin min = "@ + m@,
        None => Seq::empty(),
    };
    let line = task_line_s(t);
    assert(line =~= "  "@ + t.name + (fill + residual + margin + "\n"@));
    lemma_piece("  "@, t.name, fill + residual + margin + "\n"@);
    if let Some(r) = t.eq_residual {
        assert(line =~= ("  "@ + pad + " ‖A·x−b‖ = "@) + r@ + (margin + "\n"@));
        lemma_piece("  "@ + pad + " ‖A·x−b‖ = "@, r@, margin + "\n"@);
    }
    if let Some(m) = t.iq_margin {
        assert(line =~= ("  "@ + pad + residual + "  margin min = "@) + m@ + "\n"@);
        lemma_piece("  "@ + pad + residual + "  margin min = "@, m@, "\n"@);
    }
}

/// A written report names every level with its number and whether it was solved,
/// and every task with its numbers.
pub proof fn law_report_text(levels: Seq<LevelAchieved<String>>, i: int, k: int)
    requires
        0 <= i < levels.len(),
        0 <= k < levels[i].tasks.len(),
    ensures
        ({
            let text = report_text_s(levels, levels.len());
            &&& mentions(
                text,
                "level "@ + decimal_s(i as nat) + " \""@ + levels[i].name + "\": "@ + (
                if levels[i].degraded {
                    "DEGRADED"@
                } else {
                    "optimal"@
                }),
            )
            &&& mentions(text, levels[i].tasks[k].name)
            &&& (levels[i].tasks[k].eq_residual matches Some(r) ==> mentions(text, r@))
            &&& (levels[i].tasks[k].iq_margin matches Some(m) ==> mentions(text, m@))
        }),
{
    let l = levels[i];
    let t = l.tasks[k];
    let empty = Seq::<char>::empty();
    let mark = if l.degraded {
        "DEGRADED"@
    } else {
        "optimal"@
    };
    let start = empty;
    let title = "level "@ + decimal_s(i as nat) + " \""@ + l.name + "\": "@ + mark;
    let lines = task_lines_s(l.tasks, l.tasks.len());
    let text = level_text_s(l, i as nat);
    let n = levels.len();
    law_task_line(t);
    assert(text =~= start + title + ("\n"@ + lines));
    lemma_piece(start, title, "\n"@ + lines);
    lemma_report_levels(levels, n, i, title);
    let head = start + title + "\n"@;
    assert(text =~= head + lines + empty);
    lemma_task_lines(l.tasks, l.tasks.len(), k, t.name);
    lemma_mentions(head, lines, empty, t.name);
    lemma_report_levels(levels, n, i, t.name);
    if let Some(r) = t.eq_residual {
        lemma_task_lines(l.tasks, l.tasks.len(), k, r@);
        lemma_mentions(head, lines, empty, r@);
        lemma_report_levels(levels, n, i, r@);
    }
    if let Some(m) = t.iq_margin {
        lemma_task_lines(l.tasks, l.tasks.len(), k, m@);
        lemma_mentions(head, lines, empty, m@);
        lemma_report_levels(levels, n, i, m@);
    }
}

/// The text of a refusal names the level, the decision size that it has and the
/// one that was expected.
pub proof fn law_message(level: usize, expected: usize, found: usize)
    ensures
        ({
            let m = message_s(WbcError::DimMismatch { level, expected, found });
            &&& mentions(m, "level "@ + decimal_s(level as nat) + " has"@)
            &&& mentions(m, "n_decision "@ + decimal_s(found as nat) + ","@)
            &&& mentions(m, "expected "@ + decimal_s(expected as nat))
        }),
{
    reveal_strlit("solve: level ");
    reveal_strlit("solve: ");
    reveal_strlit("level ");
    reveal_strlit(" has");
    reveal_strlit(" n_decision ");
    reveal_strlit(" has n_decision ");
    reveal_strlit("n_decision ");
    reveal_strlit(" has ");
    reveal_strlit(",");
    reveal_strlit(", expected ");
    reveal_strlit(", ");
    reveal_strlit("expected ");
    reveal_strlit(" expected ");
    let (l, f, e) = (decimal_s(level as nat), decimal_s(found as nat), decimal_s(expected as nat));
    let m = message_s(WbcError::DimMismatch { level, expected, found });
    let empty = Seq::<char>::empty();
    let a = "level "@ + l + " has"@;
    let rest = " n_decision "@ + f + ", expected "@ + e;
    assert(m =~= "solve: "@ + a + rest);
    lemma_piece("solve: "@, a, rest);
    let b = "n_decision "@ + f + ","@;
    let head = "solve: level "@ + l + " has "@;
    assert(m =~= head + b + (" expected "@ + e));
    lemma_piece(head, b, " expected "@ + e);
    let c = "expected "@ + e;
    let front = "solve: level "@ + l + " has n_decision "@ + f + ", "@;
    assert(m =~= front + c + empty);
    lemma_piece(front, c, empty);
}

} // verus!
