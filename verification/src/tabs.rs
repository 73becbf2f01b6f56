//! Tab expansion that keeps track of the column across line breaks.

use crate::stdlib::string_push;
use vstd::prelude::*;
use vstd::std_specs::iter::IteratorSpec;

verus! {

/// `n` spaces.
pub open spec fn spaces(n: nat) -> Seq<char> {
    Seq::new(n, |i: int| ' ')
}

/// Number of spaces that a tab at column `col` stands for: the distance to
/// the next multiple of `tab_stop` above `col`, a full `tab_stop` when `col`
/// is itself a multiple.
pub open spec fn tab_width(col: nat, tab_stop: nat) -> nat {
    (tab_stop - col % tab_stop) as nat
}

/// `c` is a carriage return or a line feed.
pub open spec fn is_line_break(c: char) -> bool {
    c == '\r' || c == '\n'
}

/// The expansion of `input` when its first character stands at column `col`.
pub open spec fn expand_from(input: Seq<char>, tab_stop: nat, col: nat) -> Seq<char>
    decreases input.len(),
{
    if input.len() == 0 {
        seq![]
    } else {
        let c = input[0];
        let rest = input.drop_first();
        if c == '\t' {
            let n = tab_width(col, tab_stop);
            spaces(n) + expand_from(rest, tab_stop, col + n)
        } else if is_line_break(c) {
            seq![c] + expand_from(rest, tab_stop, 0)
        } else {
            seq![c] + expand_from(rest, tab_stop, col + 1)
        }
    }
}

/// `input` with every tab replaced by spaces up to the next tab stop. Every
/// carriage return and line feed starts a new line at column 0.
pub open spec fn expand_tabs_spec(input: Seq<char>, tab_stop: nat) -> Seq<char> {
    expand_from(input, tab_stop, 0)
}

proof fn lemma_mod_step(col: nat, tab_stop: nat)
    requires
        tab_stop > 0,
    ensures
        0 <= col % tab_stop < tab_stop,
        (col + 1) % tab_stop == (if col % tab_stop + 1 < tab_stop {
            col % tab_stop + 1
        } else {
            0
        }),
        (col + tab_width(col, tab_stop)) % tab_stop == 0,
        0nat % tab_stop == 0,
{
    let q = col as int / tab_stop as int;
    let r = col as int % tab_stop as int;
    vstd::arithmetic::div_mod::lemma_fundamental_div_mod(col as int, tab_stop as int);
    vstd::arithmetic::div_mod::lemma_mod_bound(col as int, tab_stop as int);
    assert(col == tab_stop * q + r);
    assert(tab_stop * (q + 1) == tab_stop * q + tab_stop) by (nonlinear_arith);
    if r + 1 < tab_stop {
        vstd::arithmetic::div_mod::lemma_fundamental_div_mod_converse(
            col as int + 1,
            tab_stop as int,
            q,
            r + 1,
        );
    } else {
        vstd::arithmetic::div_mod::lemma_fundamental_div_mod_converse(
            col as int + 1,
            tab_stop as int,
            q + 1,
            0,
        );
    }
    vstd::arithmetic::div_mod::lemma_fundamental_div_mod_converse(
        col as int + tab_width(col, tab_stop) as int,
        tab_stop as int,
        q + 1,
        0,
    );
    vstd::arithmetic::div_mod::lemma_small_mod(0, tab_stop);
}

/// Expanding a text from any column gives at least as many characters as
/// the text has, and at most `tab_stop` times as many.
pub proof fn lemma_expand_len(input: Seq<char>, tab_stop: nat, col: nat)
    requires
        tab_stop > 0,
    ensures
        input.len() <= expand_from(input, tab_stop, col).len() <= input.len() * tab_stop,
    decreases input.len(),
{
    if input.len() > 0 {
        let rest = input.drop_first();
        lemma_mod_step(col, tab_stop);
        assert(input.len() * tab_stop == rest.len() * tab_stop + tab_stop) by (nonlinear_arith)
            requires
                input.len() == rest.len() + 1,
        ;
        if input[0] == '\t' {
            lemma_expand_len(rest, tab_stop, col + tab_width(col, tab_stop));
        } else if input[0] == '\r' || input[0] == '\n' {
            lemma_expand_len(rest, tab_stop, 0);
        } else {
            lemma_expand_len(rest, tab_stop, col + 1);
        }
    }
}

/// A line break resets the column: what follows it expands as a text of its
/// own, whatever stood before the break.
pub proof fn lemma_line_break_resets_column(
    before: Seq<char>,
    brk: char,
    after: Seq<char>,
    tab_stop: nat,
    col: nat,
)
    requires
        is_line_break(brk),
    ensures
        expand_from(before + seq![brk] + after, tab_stop, col) == expand_from(
            before + seq![brk],
            tab_stop,
            col,
        ) + expand_tabs_spec(after, tab_stop),
    decreases before.len(),
{
    let line = before + seq![brk];
    let whole = line + after;
    if before.len() == 0 {
        assert(whole.drop_first() == after);
        assert(line.drop_first() == Seq::<char>::empty());
        assert(expand_from(line.drop_first(), tab_stop, 0) == Seq::<char>::empty());
        assert(expand_from(line, tab_stop, col) == seq![brk]);
        assert(expand_from(whole, tab_stop, col) == seq![brk] + expand_from(after, tab_stop, 0));
    } else {
        let c = before[0];
        let rest = before.drop_first();
        assert(whole.drop_first() == rest + seq![brk] + after);
        assert(line.drop_first() == rest + seq![brk]);
        assert(whole[0] == c && line[0] == c);
        let next: nat = if c == '\t' {
            col + tab_width(col, tab_stop)
        } else if c == '\r' || c == '\n' {
            0
        } else {
            col + 1
        };
        lemma_line_break_resets_column(rest, brk, after, tab_stop, next);
        let head = if c == '\t' {
            spaces(tab_width(col, tab_stop))
        } else {
            seq![c]
        };
        assert(expand_from(line, tab_stop, col) == head + expand_from(
            rest + seq![brk],
            tab_stop,
            next,
        ));
        assert(expand_from(whole, tab_stop, col) == head + expand_from(
            rest + seq![brk] + after,
            tab_stop,
            next,
        ));
    }
}

fn push_spaces(out: &mut String, n: usize)
    ensures
        final(out)@ == old(out)@ + spaces(n as nat),
{
    let mut i: usize = 0;
    while i < n
        invariant
            i <= n,
            out@ == old(out)@ + spaces(i as nat),
        decreases n - i,
    {
        string_push(out, ' ');
        i += 1;
    }
}

/// Replaces every tab of `input` by spaces up to the next multiple of
/// `tab_size` columns. A carriage return or line feed starts a new line at
/// column 0.
///
/// The tab size must be positive, and the expanded text with one more tab
/// stop must fit in a `usize`; `lemma_expand_len` bounds its length by
/// the length of `input` times `tab_size`.
pub fn expandtabs(input: &str, tab_size: usize) -> (expanded: String)
    requires
        tab_size > 0,
        expand_tabs_spec(input@, tab_size as nat).len() + tab_size <= usize::MAX,
    ensures
        expanded@ == expand_tabs_spec(input@, tab_size as nat),
{
    let tab_stop: usize = tab_size;
    let mut expanded_str: String = String::new();
    let mut tab_size: usize = tab_stop;
    let mut col_count: usize = 0;
    let mut chars = input.chars();
    proof {
        lemma_mod_step(0, tab_stop as nat);
    }
    loop
        invariant_except_break
            tab_stop > 0,
            chars.obeys_prophetic_iter_laws(),
            chars.decrease() is Some,
            expanded_str@ + expand_from(chars.remaining(), tab_stop as nat, col_count as nat)
                == expand_tabs_spec(input@, tab_stop as nat),
            expand_tabs_spec(input@, tab_stop as nat).len() + tab_stop <= usize::MAX,
            col_count <= expanded_str@.len(),
            tab_size == col_count + tab_width(col_count as nat, tab_stop as nat),
        ensures
            expanded_str@ == expand_tabs_spec(input@, tab_stop as nat),
        decreases chars.decrease()->0,
    {
        let ghost rest_before = chars.remaining();
        let ghost out_before = expanded_str@;
        let ghost col_before = col_count as nat;
        let next: Option<char> = chars.next();
        let ch: char = match next {
            Some(ch) => ch,
            None => {
                break ;
            },
        };
        proof {
            lemma_mod_step(col_count as nat, tab_stop as nat);
            assert(rest_before.len() > 0);
            assert(chars.remaining() == rest_before.drop_first());
            assert(ch == rest_before[0]);
        }
        if ch == '\t' {
            let num_spaces: usize = tab_size - col_count;
            proof {
                assert(out_before.len() + num_spaces <= expand_tabs_spec(
                    input@,
                    tab_stop as nat,
                ).len());
            }
            col_count += num_spaces;
            push_spaces(&mut expanded_str, num_spaces);
        } else if ch == '\r' || ch == '\n' {
            string_push(&mut expanded_str, ch);
            col_count = 0;
            tab_size = 0;
        } else {
            proof {
                assert(out_before.len() + 1 <= expand_tabs_spec(input@, tab_stop as nat).len());
            }
            string_push(&mut expanded_str, ch);
            col_count += 1;
        }
        if col_count >= tab_size {
            tab_size += tab_stop;
        }
        proof {
            lemma_mod_step(col_count as nat, tab_stop as nat);
            assert(expanded_str@ + expand_from(
                chars.remaining(),
                tab_stop as nat,
                col_count as nat,
            ) == out_before + expand_from(rest_before, tab_stop as nat, col_before));
        }
    }
    expanded_str
}

} // verus!
