//! A numbered confirm menu on a terminal: accept, edit one item, drop one item, or abort.
//!
//! Input lines and output text are passed in, so the loop runs the same on a terminal and
//! on prepared text.

use vstd::prelude::*;

use crate::text::{
    decimal,
    chars_of, concat, has_prefix, lower_ascii_seq, lowercase_ascii, parse_u64, slice_chars,
    starts_with, str_eq, string_of, trim, trim_ws, u64_text, u64_to_decimal,
};

verus! {

/// One proposed row: its value and the one-line label shown for it.
#[derive(Debug, Clone)]
pub struct MenuItem<T> {
    pub value: T,
    pub label: String,
}

impl<T> MenuItem<T> {
    pub fn new(value: T, label: String) -> (m: Self)
        ensures
            m.value == value,
            m.label@ == label@,
    {
        MenuItem { value, label }
    }
}

/// How the menu ended.
#[derive(Debug, Clone, Copy, PartialEq, Eq)]
pub enum MenuOutcome {
    /// Proceed with the items that remain.
    Accepted,
    /// Do not proceed.
    Aborted,
}

/// Lines of input, read one at a time; each line keeps its line break.
#[derive(Debug)]
pub struct MenuInput {
    lines: Vec<String>,
    pos: usize,
}

/// The lines of `text`: each ends with its `\n`, except a last one without one.
pub open spec fn split_lines(text: Seq<char>) -> Seq<Seq<char>>
    decreases text.len(),
{
    if text.len() == 0 {
        Seq::<Seq<char>>::empty()
    } else {
        let rest = split_lines(text.drop_last());
        if rest.len() == 0 || rest.last().last() == '\n' {
            rest.push(seq![text.last()])
        } else {
            rest.update(rest.len() - 1, rest.last().push(text.last()))
        }
    }
}

impl MenuInput {
    pub closed spec fn remaining(&self) -> Seq<Seq<char>> {
        self.lines@.subrange(self.pos as int, self.lines@.len() as int).map_values(|s: String| s@)
    }

    pub closed spec fn inv(&self) -> bool {
        self.pos <= self.lines@.len()
    }

    /// Input holding the lines of `text`.
    pub fn from_text(text: &str) -> (r: Self)
        ensures
            r.inv(),
            r.remaining() == split_lines(text@),
    {
        let v = chars_of(text);
        let mut lines: Vec<String> = Vec::new();
        let mut start: usize = 0;
        let mut i: usize = 0;
        proof {
            assert(v@.subrange(0, 0) =~= Seq::<char>::empty());
            assert(lines@.map_values(|s: String| s@) =~= Seq::<Seq<char>>::empty());
        }
        while i < v.len()
            invariant
                v@ == text@,
                start <= i <= v@.len(),
                forall|j: int| 0 <= j < lines@.len() ==> #[trigger] lines@[j]@.len() > 0
                    && lines@[j]@.last() == '\n',
                forall|j: int| start <= j < i ==> v@[j] != '\n',
                split_lines(v@.subrange(0, i as int)) == lines@.map_values(|s: String| s@) + (if start
                    < i {
                    seq![v@.subrange(start as int, i as int)]
                } else {
                    Seq::<Seq<char>>::empty()
                }),
            decreases v@.len() - i,
        {
            let ghost views0 = lines@.map_values(|s: String| s@);
            let ghost start0 = start as int;
            let ghost i0 = i as int;
            let c = v[i];
            proof {
                let s0 = v@.subrange(0, i0);
                let s1 = v@.subrange(0, i0 + 1);
                assert(s1.drop_last() =~= s0);
                assert(s1.last() == c);
                let rest = split_lines(s0);
                if start0 < i0 {
                    assert(rest == views0.push(v@.subrange(start0, i0)));
                    assert(rest.last() == v@.subrange(start0, i0));
                    assert(rest.last().last() == v@[i0 - 1]);
                    assert(split_lines(s1) == rest.update(rest.len() - 1, rest.last().push(c)));
                    assert(v@.subrange(start0, i0).push(c) =~= v@.subrange(start0, i0 + 1));
                    assert(split_lines(s1) =~= views0.push(v@.subrange(start0, i0 + 1)));
                } else {
                    assert(rest =~= views0);
                    if views0.len() > 0 {
                        assert(views0.last() == lines@[views0.len() - 1]@);
                    }
                    assert(split_lines(s1) == rest.push(seq![c]));
                    assert(seq![c] =~= v@.subrange(start0, i0 + 1));
                    assert(split_lines(s1) =~= views0.push(v@.subrange(start0, i0 + 1)));
                }
            }
            if c == '\n' {
                let piece = string_of(&slice_chars(&v, start, i + 1));
                lines.push(piece);
                start = i + 1;
                proof {
                    assert(lines@.map_values(|s: String| s@) =~= views0.push(v@.subrange(start0, i0 + 1)));
                }
            }
            i = i + 1;
            proof {
                let pend = if start < i {
                    seq![v@.subrange(start as int, i as int)]
                } else {
                    Seq::<Seq<char>>::empty()
                };
                if c != '\n' {
                    assert(lines@.map_values(|s: String| s@) + pend =~= views0.push(v@.subrange(start0, i0 + 1)));
                } else {
                    assert(lines@.map_values(|s: String| s@) + pend =~= views0.push(v@.subrange(start0, i0 + 1)));
                }
            }
        }
        if start < v.len() {
            lines.push(string_of(&slice_chars(&v, start, v.len())));
        }
        proof {
            assert(v@.subrange(0, v@.len() as int) =~= v@);
        }
        let r = MenuInput { lines, pos: 0 };
        proof {
            assert(r.remaining() =~= split_lines(text@));
        }
        r
    }

    /// The next line, or `None` at the end of input.
    pub fn read_line(&mut self) -> (r: Option<String>)
        requires
            old(self).inv(),
        ensures
            final(self).inv(),
            old(self).remaining().len() == 0 ==> r is None && final(self).remaining()
                == old(self).remaining(),
            old(self).remaining().len() > 0 ==> r is Some && r->0@ == old(self).remaining()[0]
                && final(self).remaining() == old(self).remaining().drop_first(),
    {
        if self.pos >= self.lines.len() {
            return None;
        }
        let line = self.lines[self.pos].clone();
        let ghost before = self.remaining();
        self.pos = self.pos + 1;
        assert(self.remaining() =~= before.drop_first());
        Some(line)
    }
}

/// What one input line asks for.
#[derive(Debug, Clone, PartialEq, Eq)]
pub enum MenuCommand {
    Accept,
    Abort,
    /// Drop the item at this (0-based) position.
    Drop(usize),
    /// A drop command whose number names no item; holds the text after `d ` / `drop `.
    BadDrop(String),
    /// Edit the item at this (0-based) position.
    Edit(usize),
    /// Anything else; holds the trimmed line.
    Unrecognized(String),
}

/// The item a 1-based number names among `len` items, as a 0-based position.
pub open spec fn index_named(raw: Seq<char>, len: nat) -> Option<nat> {
    match u64_text(trim_ws(raw)) {
        Some(n) => if n == 0 || n > len || n > usize::MAX {
            None
        } else {
            Some((n - 1) as nat)
        },
        None => None,
    }
}

pub fn parse_index(raw: &str, len: usize) -> (r: Option<usize>)
    ensures
        match index_named(raw@, len as nat) {
            Some(i) => r == Some(i as usize),
            None => r is None,
        },
{
    let t = trim(raw);
    match parse_u64(t.as_str()) {
        Some(n) => {
            if n == 0 || n > len as u64 {
                None
            } else {
                Some((n - 1) as usize)
            }
        },
        None => None,
    }
}

/// The command a line gives, over `len` items: blank, `y`, `yes`, `a`, `accept` accept;
/// `q`, `quit` abort (case-insensitively); `d N` / `drop N` drop item `N`; a bare number
/// edits that item; anything else is unrecognized.
pub open spec fn command_of(line: Seq<char>, len: nat) -> MenuCommand {
    let cmd = trim_ws(line);
    let low = lower_ascii_seq(cmd);
    if cmd.len() == 0 || low == "y"@ || low == "yes"@ || low == "a"@ || low == "accept"@ {
        MenuCommand::Accept
    } else if low == "q"@ || low == "quit"@ {
        MenuCommand::Abort
    } else if has_prefix(cmd, "d "@) || has_prefix(cmd, "drop "@) {
        let rest = if has_prefix(cmd, "d "@) {
            cmd.subrange(2, cmd.len() as int)
        } else {
            cmd.subrange(5, cmd.len() as int)
        };
        match index_named(rest, len) {
            Some(i) => MenuCommand::Drop(i as usize),
            None => MenuCommand::BadDrop(arbitrary()),
        }
    } else {
        match index_named(cmd, len) {
            Some(i) => MenuCommand::Edit(i as usize),
            None => MenuCommand::Unrecognized(arbitrary()),
        }
    }
}

/// The text a bad drop or an unrecognized line carries.
pub open spec fn command_text(line: Seq<char>) -> Seq<char> {
    let cmd = trim_ws(line);
    if has_prefix(cmd, "d "@) {
        cmd.subrange(2, cmd.len() as int)
    } else if has_prefix(cmd, "drop "@) {
        cmd.subrange(5, cmd.len() as int)
    } else {
        cmd
    }
}

pub open spec fn same_command(c: MenuCommand, d: MenuCommand, line: Seq<char>) -> bool {
    match (c, d) {
        (MenuCommand::BadDrop(s), MenuCommand::BadDrop(_)) => s@ == command_text(line),
        (MenuCommand::Unrecognized(s), MenuCommand::Unrecognized(_)) => s@ == command_text(line),
        (MenuCommand::Accept, MenuCommand::Accept) => true,
        (MenuCommand::Abort, MenuCommand::Abort) => true,
        (MenuCommand::Drop(a), MenuCommand::Drop(b)) => a == b,
        (MenuCommand::Edit(a), MenuCommand::Edit(b)) => a == b,
        _ => false,
    }
}

pub fn menu_command(line: &str, len: usize) -> (c: MenuCommand)
    ensures
        same_command(c, command_of(line@, len as nat), line@),
{
    let cmd = trim(line);
    let low = lowercase_ascii(cmd.as_str());
    let l = low.as_str();
    if cmd.as_str().is_empty() || str_eq(l, "y") || str_eq(l, "yes") || str_eq(l, "a") || str_eq(
        l,
        "accept",
    ) {
        return MenuCommand::Accept;
    }
    if str_eq(l, "q") || str_eq(l, "quit") {
        return MenuCommand::Abort;
    }
    let cv = chars_of(cmd.as_str());
    proof {
        reveal_strlit("d ");
        reveal_strlit("drop ");
    }
    let rest: Option<String> = if starts_with(cmd.as_str(), "d ") {
        Some(string_of(&slice_chars(&cv, 2, cv.len())))
    } else if starts_with(cmd.as_str(), "drop ") {
        Some(string_of(&slice_chars(&cv, 5, cv.len())))
    } else {
        None
    };
    match rest {
        Some(r) => match parse_index(r.as_str(), len) {
            Some(i) => MenuCommand::Drop(i),
            None => MenuCommand::BadDrop(r),
        },
        None => match parse_index(cmd.as_str(), len) {
            Some(i) => MenuCommand::Edit(i),
            None => MenuCommand::Unrecognized(cmd),
        },
    }
}

/// The prompt shown after the items.
pub open spec fn prompt_text() -> Seq<char> {
    "[Enter/y]=accept  N=edit  d N=drop  q=abort > "@
}

/// The items as the menu lists them: `N. label` on a line each.
pub open spec fn listing<T>(items: Seq<MenuItem<T>>) -> Seq<char>
    decreases items.len(),
{
    if items.len() == 0 {
        Seq::<char>::empty()
    } else {
        listing(items.drop_last()) + decimal(items.len()) + ". "@ + items.last().label@ + "\n"@
    }
}

/// What one round shows: the listing, then the prompt.
pub open spec fn shown<T>(items: Seq<MenuItem<T>>) -> Seq<char> {
    listing(items) + prompt_text()
}

/// How `{:?}` writes a string: quoted, with quotes, backslashes, control and other
/// non-printing characters escaped.
pub uninterp spec fn debug_quoted(s: Seq<char>) -> Seq<char>;

/// `format!("{s:?}")`. The escaping follows Unicode's printable and grapheme-extend tables,
/// which are not restated here; the result is named `debug_quoted`.
#[verifier::external_body]
fn debug_text(s: &str) -> (r: String)
    ensures
        r@ == debug_quoted(s@),
{
    format!("{s:?}")
}

/// The hint after a drop command whose number names no item.
pub open spec fn bad_drop_note(line: Seq<char>) -> Seq<char> {
    "not a valid item number: "@ + command_text(line) + "\n"@
}

/// The hint after a line that is no command.
pub open spec fn unrecognized_note(line: Seq<char>) -> Seq<char> {
    "unrecognized: "@ + debug_quoted(command_text(line))
        + " — Enter to accept, a number to edit, \"d N\" to drop, q to abort\n"@
}

/// `edit`, handed input with `lines` left and an empty output, gives back input with at
/// most as many lines left.
pub open spec fn edit_reads_forward<T, E: Fn(&T, MenuInput, String) -> (T, MenuInput, String)>(
    edit: E,
) -> bool {
    forall|t: &T, i: MenuInput, s: String, r: (T, MenuInput, String)|
        #[trigger] edit.ensures((t, i, s), r) ==> r.1.inv() && r.1.remaining().len()
            <= i.remaining().len()
}

/// The menu run on `lines` from `items` writes `out`, ends with `last` items and gives
/// `outcome`. Each round shows the items and the prompt and reads a line: accept or abort
/// ends it (so does the end of input, as an abort); a drop removes the item; an edit hands
/// `edit` the item's value, the rest of the input and an empty output, writes what `edit`
/// wrote, goes on with the input `edit` leaves, and replaces the item's value by the one
/// `edit` gives and its label by one `render` gives for it; anything else writes a hint.
pub open spec fn menu_effect<T, R: Fn(&T) -> String, E: Fn(&T, MenuInput, String) -> (T, MenuInput, String)>(
    lines: Seq<Seq<char>>,
    items: Seq<MenuItem<T>>,
    render: R,
    edit: E,
    out: Seq<char>,
    last: Seq<MenuItem<T>>,
    outcome: MenuOutcome,
) -> bool
    decreases lines.len(),
{
    let sh = shown(items);
    if lines.len() == 0 {
        outcome == MenuOutcome::Aborted && last == items && out == sh
    } else {
        let rest = lines.drop_first();
        match command_of(lines[0], items.len()) {
            MenuCommand::Accept => outcome == MenuOutcome::Accepted && last == items && out == sh,
            MenuCommand::Abort => outcome == MenuOutcome::Aborted && last == items && out == sh,
            MenuCommand::Drop(i) => has_prefix(out, sh) && menu_effect(
                rest,
                items.remove(i as int),
                render,
                edit,
                out.subrange(sh.len() as int, out.len() as int),
                last,
                outcome,
            ),
            MenuCommand::Edit(i) => has_prefix(out, sh) && exists|
                v: T,
                i1: MenuInput,
                i2: MenuInput,
                e: String,
                w: String,
                l: String,
            |
                #![trigger edit.ensures((&items[i as int].value, i1, e), (v, i2, w)), render.ensures((&v,), l)]
                i1.remaining() == rest && e@.len() == 0 && i2.remaining().len() <= rest.len()
                    && edit.ensures((&items[i as int].value, i1, e), (v, i2, w)) && render.ensures(
                    (&v,),
                    l,
                ) && has_prefix(out.subrange(sh.len() as int, out.len() as int), w@)
                    && menu_effect(
                    i2.remaining(),
                    items.update(i as int, MenuItem { value: v, label: l }),
                    render,
                    edit,
                    out.subrange((sh.len() + w@.len()) as int, out.len() as int),
                    last,
                    outcome,
                ),
            MenuCommand::BadDrop(_) => {
                let w = sh + bad_drop_note(lines[0]);
                has_prefix(out, w) && menu_effect(
                    rest,
                    items,
                    render,
                    edit,
                    out.subrange(w.len() as int, out.len() as int),
                    last,
                    outcome,
                )
            },
            MenuCommand::Unrecognized(_) => {
                let w = sh + unrecognized_note(lines[0]);
                has_prefix(out, w) && menu_effect(
                    rest,
                    items,
                    render,
                    edit,
                    out.subrange(w.len() as int, out.len() as int),
                    last,
                    outcome,
                )
            },
        }
    }
}

fn write_listing<T>(items: &Vec<MenuItem<T>>, output: &mut String)
    ensures
        final(output)@ == old(output)@ + listing(items@),
{
    let mut i: usize = 0;
    assert(items@.subrange(0, 0) =~= Seq::<MenuItem<T>>::empty());
    assert(output@ =~= old(output)@ + listing(items@.subrange(0, 0)));
    while i < items.len()
        invariant
            i <= items@.len(),
            output@ == old(output)@ + listing(items@.subrange(0, i as int)),
        decreases items@.len() - i,
    {
        let n: u64 = i as u64 + 1;
        let line = concat(
            concat(u64_to_decimal(n).as_str(), ". ").as_str(),
            items[i].label.as_str(),
        );
        let ghost before = output@;
        *output = concat(concat(output.as_str(), line.as_str()).as_str(), "\n");
        proof {
            let s1 = items@.subrange(0, i + 1);
            assert(s1.drop_last() =~= items@.subrange(0, i as int));
            assert(s1.last() == items@[i as int]);
            assert(s1.len() == n);
            assert(output@ =~= old(output)@ + listing(items@.subrange(0, i + 1)));
        }
        i = i + 1;
    }
    assert(items@.subrange(0, items@.len() as int) =~= items@);
}

/// Shows the items and the prompt, reads command lines and applies them until one accepts
/// or aborts; the end of input aborts. `edit_one` gets an edited item's value with the
/// input and an empty output, may read further lines and write, and gives the new value
/// back with the input and what it wrote; `render` gives the new label. What is written
/// to `output` is appended.
pub fn run<T, R, E>(
    items: &mut Vec<MenuItem<T>>,
    render: R,
    edit_one: E,
    input: &mut MenuInput,
    output: &mut String,
) -> (outcome: MenuOutcome)
    where
        R: Fn(&T) -> String,
        E: Fn(&T, MenuInput, String) -> (T, MenuInput, String),
    requires
        old(input).inv(),
        forall|t: &T| #[trigger] render.requires((t,)),
        forall|t: &T, i: MenuInput, s: String| #[trigger] edit_one.requires((t, i, s)),
        edit_reads_forward(edit_one),
    ensures
        has_prefix(final(output)@, old(output)@),
        menu_effect(
            old(input).remaining(),
            old(items)@,
            render,
            edit_one,
            final(output)@.subrange(old(output)@.len() as int, final(output)@.len() as int),
            final(items)@,
            outcome,
        ),
        final(input).inv(),
{
    let ghost base = old(output)@.len() as int;
    proof {
        assert(output@.subrange(0, base) =~= old(output)@);
        assert(output@.subrange(base, output@.len() as int) =~= Seq::<char>::empty());
        assert forall|out2: Seq<char>, fin: Seq<MenuItem<T>>, oc: MenuOutcome|
            #[trigger] menu_effect(input.remaining(), items@, render, edit_one, out2, fin, oc)
            implies menu_effect(
            old(input).remaining(),
            old(items)@,
            render,
            edit_one,
            output@.subrange(base, output@.len() as int) + out2,
            fin,
            oc,
        ) by {
            assert(output@.subrange(base, output@.len() as int) + out2 =~= out2);
        }
    }
    loop
        invariant
            input.inv(),
            forall|t: &T| #[trigger] render.requires((t,)),
            forall|t: &T, i: MenuInput, s: String| #[trigger] edit_one.requires((t, i, s)),
            edit_reads_forward(edit_one),
            base == old(output)@.len(),
            base <= output@.len(),
            output@.subrange(0, base) == old(output)@,
            forall|out2: Seq<char>, fin: Seq<MenuItem<T>>, oc: MenuOutcome|
                #[trigger] menu_effect(input.remaining(), items@, render, edit_one, out2, fin, oc)
                    ==> menu_effect(
                    old(input).remaining(),
                    old(items)@,
                    render,
                    edit_one,
                    output@.subrange(base, output@.len() as int) + out2,
                    fin,
                    oc,
                ),
        decreases input.remaining().len(),
    {
        let ghost acc = output@.subrange(base, output@.len() as int);
        let ghost out_top = output@;
        let ghost lines0 = input.remaining();
        let ghost items0 = items@;
        write_listing(items, output);
        *output = concat(output.as_str(), "[Enter/y]=accept  N=edit  d N=drop  q=abort > ");
        let ghost sh = shown(items0);
        proof {
            assert(output@ =~= out_top + sh);
            assert(output@.subrange(base, output@.len() as int) =~= acc + sh);
            assert(output@.subrange(0, base) =~= out_top.subrange(0, base));
        }
        let line = match input.read_line() {
            Some(l) => l,
            None => {
                proof {
                    assert(menu_effect(lines0, items0, render, edit_one, sh, items0, MenuOutcome::Aborted));
                }
                return MenuOutcome::Aborted;
            },
        };
        let cmd = menu_command(line.as_str(), items.len());
        let ghost rest = input.remaining();
        proof {
            assert(rest == lines0.drop_first());
            assert(line@ == lines0[0]);
        }
        match cmd {
            MenuCommand::Accept => {
                proof {
                    assert(menu_effect(lines0, items0, render, edit_one, sh, items0, MenuOutcome::Accepted));
                }
                return MenuOutcome::Accepted;
            },
            MenuCommand::Abort => {
                proof {
                    assert(menu_effect(lines0, items0, render, edit_one, sh, items0, MenuOutcome::Aborted));
                }
                return MenuOutcome::Aborted;
            },
            MenuCommand::Drop(idx) => {
                items.remove(idx);
                proof {
                    assert forall|out2: Seq<char>, fin: Seq<MenuItem<T>>, oc: MenuOutcome|
                        #[trigger] menu_effect(rest, items@, render, edit_one, out2, fin, oc)
                        implies menu_effect(
                        old(input).remaining(),
                        old(items)@,
                        render,
                        edit_one,
                        output@.subrange(base, output@.len() as int) + out2,
                        fin,
                        oc,
                    ) by {
                        let o = sh + out2;
                        assert(o.subrange(0, sh.len() as int) =~= sh);
                        assert(o.subrange(sh.len() as int, o.len() as int) =~= out2);
                        assert(menu_effect(lines0, items0, render, edit_one, o, fin, oc));
                        assert(acc + o =~= output@.subrange(base, output@.len() as int) + out2);
                    }
                }
            },
            MenuCommand::BadDrop(text) => {
                let ghost before = output@;
                *output = concat(
                    concat(output.as_str(), "not a valid item number: ").as_str(),
                    concat(text.as_str(), "\n").as_str(),
                );
                proof {
                    let w = sh + bad_drop_note(lines0[0]);
                    assert(output@ =~= before + bad_drop_note(lines0[0]));
                    assert(output@.subrange(0, base) =~= before.subrange(0, base));
                    assert forall|out2: Seq<char>, fin: Seq<MenuItem<T>>, oc: MenuOutcome|
                        #[trigger] menu_effect(rest, items@, render, edit_one, out2, fin, oc)
                        implies menu_effect(
                        old(input).remaining(),
                        old(items)@,
                        render,
                        edit_one,
                        output@.subrange(base, output@.len() as int) + out2,
                        fin,
                        oc,
                    ) by {
                        let o = w + out2;
                        assert(o.subrange(0, w.len() as int) =~= w);
                        assert(o.subrange(w.len() as int, o.len() as int) =~= out2);
                        assert(menu_effect(lines0, items0, render, edit_one, o, fin, oc));
                        assert(acc + sh + o.subrange(sh.len() as int, o.len() as int) =~= acc + o);
                        assert(acc + o =~= output@.subrange(base, output@.len() as int) + out2);
                    }
                }
            },
            MenuCommand::Edit(idx) => {
                let mut taken = MenuInput::from_text("");
                std::mem::swap(&mut taken, input);
                let ghost i1 = taken;
                let e = String::new();
                let ghost eg = e;
                let (v, back, w) = edit_one(&items[idx].value, taken, e);
                let ghost i2 = back;
                *input = back;
                let label = render(&v);
                proof {
                    assert(edit_one.ensures((&items0[idx as int].value, i1, eg), (v, i2, w)));
                    assert(render.ensures((&v,), label));
                    assert(i2.inv() && i2.remaining().len() <= i1.remaining().len());
                }
                let ghost before = output@;
                *output = concat(output.as_str(), w.as_str());
                let item = MenuItem { value: v, label };
                items.set(idx, item);
                proof {
                    assert(output@.subrange(0, base) =~= before.subrange(0, base));
                    assert forall|out2: Seq<char>, fin: Seq<MenuItem<T>>, oc: MenuOutcome|
                        #[trigger] menu_effect(input.remaining(), items@, render, edit_one, out2, fin, oc)
                        implies menu_effect(
                        old(input).remaining(),
                        old(items)@,
                        render,
                        edit_one,
                        output@.subrange(base, output@.len() as int) + out2,
                        fin,
                        oc,
                    ) by {
                        let o = sh + w@ + out2;
                        assert(o.subrange(0, sh.len() as int) =~= sh);
                        assert(o.subrange(sh.len() as int, o.len() as int) =~= w@ + out2);
                        assert((w@ + out2).subrange(0, w@.len() as int) =~= w@);
                        assert(o.subrange((sh.len() + w@.len()) as int, o.len() as int) =~= out2);
                        assert(items@ == items0.update(idx as int, MenuItem { value: v, label }));
                        assert(menu_effect(lines0, items0, render, edit_one, o, fin, oc));
                        assert(acc + o =~= output@.subrange(base, output@.len() as int) + out2);
                    }
                }
            },
            MenuCommand::Unrecognized(text) => {
                let ghost before = output@;
                let quoted = debug_text(text.as_str());
                *output = concat(
                    concat(output.as_str(), "unrecognized: ").as_str(),
                    concat(
                        quoted.as_str(),
                        " — Enter to accept, a number to edit, \"d N\" to drop, q to abort\n",
                    ).as_str(),
                );
                proof {
                    let w = sh + unrecognized_note(lines0[0]);
                    assert(output@ =~= before + unrecognized_note(lines0[0]));
                    assert(output@.subrange(0, base) =~= before.subrange(0, base));
                    assert forall|out2: Seq<char>, fin: Seq<MenuItem<T>>, oc: MenuOutcome|
                        #[trigger] menu_effect(rest, items@, render, edit_one, out2, fin, oc)
                        implies menu_effect(
                        old(input).remaining(),
                        old(items)@,
                        render,
                        edit_one,
                        output@.subrange(base, output@.len() as int) + out2,
                        fin,
                        oc,
                    ) by {
                        let o = w + out2;
                        assert(o.subrange(0, w.len() as int) =~= w);
                        assert(o.subrange(w.len() as int, o.len() as int) =~= out2);
                        assert(menu_effect(lines0, items0, render, edit_one, o, fin, oc));
                        assert(acc + o =~= output@.subrange(base, output@.len() as int) + out2);
                    }
                }
            },
        }
    }
}

} // verus!
