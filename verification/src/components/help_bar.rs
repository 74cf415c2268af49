use vstd::prelude::*;

verus! {

/// The help line at the foot of the screen.
pub struct HelpBar {
    pub is_interactive: bool,
}

/// How a piece of the help line is drawn.
#[derive(Debug, Clone, Copy, PartialEq, Eq, Structural)]
pub enum SegmentStyle {
    Plain,
    BoldYellow,
    BoldRed,
    BoldCyan,
    BoldGreen,
    DarkGray,
}

/// The help line's pieces, in order.
pub open spec fn segments_spec(is_interactive: bool) -> Seq<(Seq<char>, SegmentStyle)> {
    if is_interactive {
        seq![
            (" Interactive Mode "@, SegmentStyle::BoldYellow),
            (" │ Exit: "@, SegmentStyle::Plain),
            ("Esc"@, SegmentStyle::BoldRed),
        ]
    } else {
        seq![
            ("Move: "@, SegmentStyle::Plain),
            ("↑/↓/j/k"@, SegmentStyle::BoldCyan),
            ("  •  "@, SegmentStyle::DarkGray),
            ("Run: "@, SegmentStyle::Plain),
            ("r/Enter"@, SegmentStyle::BoldGreen),
            ("  •  "@, SegmentStyle::DarkGray),
            ("Run All: "@, SegmentStyle::Plain),
            ("A"@, SegmentStyle::BoldGreen),
            ("  •  "@, SegmentStyle::DarkGray),
            ("Stop: "@, SegmentStyle::Plain),
            ("s/S"@, SegmentStyle::BoldRed),
            ("  •  "@, SegmentStyle::DarkGray),
            ("Interactive: "@, SegmentStyle::Plain),
            ("i"@, SegmentStyle::BoldYellow),
            ("  •  "@, SegmentStyle::DarkGray),
            ("Scroll: "@, SegmentStyle::Plain),
            ("PgUp/PgDn/Shift+↑/Shift+↓"@, SegmentStyle::BoldCyan),
            ("  •  "@, SegmentStyle::DarkGray),
            ("Clear: "@, SegmentStyle::Plain),
            ("c/C"@, SegmentStyle::BoldYellow),
            ("  •  "@, SegmentStyle::DarkGray),
            ("Quit: "@, SegmentStyle::Plain),
            ("q/Esc"@, SegmentStyle::BoldRed),
        ]
    }
}

/// The texts of `segs`, one after the other.
pub open spec fn concat_texts(segs: Seq<(Seq<char>, SegmentStyle)>) -> Seq<char>
    decreases segs.len(),
{
    if segs.len() == 0 {
        Seq::empty()
    } else {
        concat_texts(segs.drop_last()) + segs.last().0
    }
}

/// The lengths of the words of `s` split at each space (an empty word
/// between two spaces in a row), `cur` characters of the first word being
/// already counted.
pub open spec fn word_lengths_from(s: Seq<char>, cur: nat) -> Seq<nat>
    decreases s.len(),
{
    if s.len() == 0 {
        seq![cur]
    } else if s[0] == ' ' {
        seq![cur] + word_lengths_from(s.drop_first(), 0)
    } else {
        word_lengths_from(s.drop_first(), cur + 1)
    }
}

/// Rows needed to lay words of lengths `w` out greedily on rows of `limit`
/// characters, from word `i` on, with `lines` rows filled and `cur`
/// characters on the row being filled. An empty word stands for an extra
/// space, kept while the row has room; a word longer than a row starts on a
/// fresh row and takes as many rows as it needs.
pub open spec fn wrap_rows(w: Seq<nat>, limit: nat, i: nat, lines: nat, cur: nat) -> nat
    decreases w.len() - i, cur,
{
    if i >= w.len() {
        if cur > 0 { lines + 1 } else { lines }
    } else {
        let len = w[i as int];
        if len == 0 {
            wrap_rows(w, limit, i + 1, lines, if cur > 0 && cur < limit { cur + 1 } else { cur })
        } else if cur == 0 {
            if len > limit {
                wrap_rows(w, limit, i + 1, lines + ceil_div(len, limit), len % limit)
            } else {
                wrap_rows(w, limit, i + 1, lines, len)
            }
        } else if cur + 1 + len <= limit {
            wrap_rows(w, limit, i + 1, lines, cur + 1 + len)
        } else {
            wrap_rows(w, limit, i, lines + 1, 0)
        }
    }
}

/// `a / b`, rounded up.
pub open spec fn ceil_div(a: nat, b: nat) -> nat {
    if b == 0 { 0 } else if a % b == 0 { a / b } else { a / b + 1 }
}

/// The rows the help line takes on a screen `width` columns wide: at least one.
pub open spec fn help_height(is_interactive: bool, width: u16) -> u16 {
    let limit: nat = if width >= 1 { width as nat } else { 1 };
    let rows = wrap_rows(word_lengths_from(concat_texts(segments_spec(is_interactive)), 0), limit, 0, 0, 0);
    (if rows >= 1 { rows } else { 1 }) as u16
}

/// Each word's length plus one, summed: the characters the words take with
/// one space after each.
pub open spec fn weight(ws: Seq<nat>) -> nat
    decreases ws.len(),
{
    if ws.len() == 0 {
        0
    } else {
        weight(ws.drop_last()) + ws.last() + 1
    }
}

proof fn lemma_weight_concat(a: Seq<nat>, b: Seq<nat>)
    ensures
        weight(a + b) == weight(a) + weight(b),
    decreases b.len(),
{
    if b.len() > 0 {
        lemma_weight_concat(a, b.drop_last());
        assert((a + b).drop_last() =~= a + b.drop_last());
    } else {
        assert(a + b =~= a);
    }
}

proof fn lemma_word_lengths_weight(s: Seq<char>, cur: nat)
    ensures
        weight(word_lengths_from(s, cur)) == s.len() + 1 + cur,
    decreases s.len(),
{
    reveal_with_fuel(weight, 2);
    if s.len() > 0 {
        lemma_word_lengths_weight(s.drop_first(), if s[0] == ' ' { 0 } else { cur + 1 });
        if s[0] == ' ' {
            lemma_weight_concat(seq![cur], word_lengths_from(s.drop_first(), 0));
            assert(seq![cur].drop_last() =~= Seq::<nat>::empty());
        }
    } else {
        assert(seq![cur].drop_last() =~= Seq::<nat>::empty());
    }
}

/// The help line is short.
proof fn lemma_help_text_short(is_interactive: bool)
    ensures
        concat_texts(segments_spec(is_interactive)).len() <= 400,
{
    reveal_with_fuel(concat_texts, 24);
    reveal_strlit(" Interactive Mode ");
    reveal_strlit(" │ Exit: ");
    reveal_strlit("Esc");
    reveal_strlit("Move: ");
    reveal_strlit("↑/↓/j/k");
    reveal_strlit("  •  ");
    reveal_strlit("Run: ");
    reveal_strlit("r/Enter");
    reveal_strlit("Run All: ");
    reveal_strlit("A");
    reveal_strlit("Stop: ");
    reveal_strlit("s/S");
    reveal_strlit("Interactive: ");
    reveal_strlit("i");
    reveal_strlit("Scroll: ");
    reveal_strlit("PgUp/PgDn/Shift+↑/Shift+↓");
    reveal_strlit("Clear: ");
    reveal_strlit("c/C");
    reveal_strlit("Quit: ");
    reveal_strlit("q/Esc");
}

/// The characters the words `ws` take when laid out on one row: a space
/// before each word once one has been laid out, and a space for each empty
/// word from then on.
pub open spec fn row_length(ws: Seq<nat>, started: bool) -> nat
    decreases ws.len(),
{
    if ws.len() == 0 {
        0
    } else if ws[0] == 0 {
        (if started { 1nat } else { 0nat }) + row_length(ws.drop_first(), started)
    } else {
        (if started { 1nat } else { 0nat }) + ws[0] + row_length(ws.drop_first(), true)
    }
}

/// The number of spaces `s` begins with.
pub open spec fn leading_spaces(s: Seq<char>) -> nat
    decreases s.len(),
{
    if s.len() > 0 && s[0] == ' ' {
        1 + leading_spaces(s.drop_first())
    } else {
        0
    }
}

/// The narrowest screen on which the help line fits on one row: the length
/// of its text, leading spaces left out.
pub open spec fn one_row_width(is_interactive: bool) -> nat {
    let t = concat_texts(segments_spec(is_interactive));
    (t.len() - leading_spaces(t)) as nat
}

proof fn lemma_skip_step(w: Seq<nat>, i: nat)
    requires
        i < w.len(),
    ensures
        w.skip(i as int).len() > 0,
        w.skip(i as int)[0] == w[i as int],
        w.skip(i as int).drop_first() == w.skip(i + 1int),
        weight(w.skip(i as int)) == w[i as int] + 1 + weight(w.skip(i + 1int)),
{
    assert(w.skip(i as int).drop_first() =~= w.skip(i + 1int));
    assert(w.skip(i as int) =~= seq![w[i as int]] + w.skip(i + 1int));
    lemma_weight_concat(seq![w[i as int]], w.skip(i + 1int));
    reveal_with_fuel(weight, 2);
    assert(seq![w[i as int]].drop_last() =~= Seq::<nat>::empty());
}

/// The rows counted never go down.
proof fn lemma_rows_at_least(w: Seq<nat>, limit: nat, i: nat, lines: nat, cur: nat)
    requires
        limit >= 1,
    ensures
        wrap_rows(w, limit, i, lines, cur) >= lines,
    decreases w.len() - i, cur,
{
    if i < w.len() {
        let len = w[i as int];
        if len == 0 {
            lemma_rows_at_least(w, limit, i + 1, lines, if cur > 0 && cur < limit { cur + 1 } else { cur });
        } else if cur == 0 {
            if len > limit {
                lemma_rows_at_least(w, limit, i + 1, lines + ceil_div(len, limit), len % limit);
            } else {
                lemma_rows_at_least(w, limit, i + 1, lines, len);
            }
        } else if cur + 1 + len <= limit {
            lemma_rows_at_least(w, limit, i + 1, lines, cur + 1 + len);
        } else {
            lemma_rows_at_least(w, limit, i, lines + 1, 0);
        }
    }
}

/// A row being filled, or a word still to lay out, takes a row.
proof fn lemma_rows_one_more(w: Seq<nat>, limit: nat, i: nat, lines: nat, cur: nat)
    requires
        limit >= 1,
        cur > 0 || exists|j: int| i <= j < w.len() && #[trigger] w[j] > 0,
    ensures
        wrap_rows(w, limit, i, lines, cur) >= lines + 1,
    decreases w.len() - i, cur,
{
    if i < w.len() {
        let len = w[i as int];
        if len == 0 {
            if cur == 0 {
                let j = choose|j: int| i <= j < w.len() && #[trigger] w[j] > 0;
                assert(j != i);
            }
            lemma_rows_one_more(w, limit, i + 1, lines, if cur > 0 && cur < limit { cur + 1 } else { cur });
        } else if cur == 0 {
            if len > limit {
                assert(len / limit >= 1) by (nonlinear_arith)
                    requires
                        len > limit,
                        limit >= 1,
                ;
                lemma_rows_at_least(w, limit, i + 1, lines + ceil_div(len, limit), len % limit);
            } else {
                lemma_rows_one_more(w, limit, i + 1, lines, len);
            }
        } else if cur + 1 + len <= limit {
            lemma_rows_one_more(w, limit, i + 1, lines, cur + 1 + len);
        } else {
            lemma_rows_at_least(w, limit, i, lines + 1, 0);
        }
    }
}

/// Words with something in them after the start take at least two characters
/// once a row has started.
proof fn lemma_row_length_two(ws: Seq<nat>)
    requires
        exists|j: int| 0 <= j < ws.len() && #[trigger] ws[j] > 0,
    ensures
        row_length(ws, true) >= 2,
    decreases ws.len(),
{
    if ws[0] == 0 {
        let j = choose|j: int| 0 <= j < ws.len() && #[trigger] ws[j] > 0;
        assert(ws.drop_first()[j - 1] == ws[j]);
        lemma_row_length_two(ws.drop_first());
    }
}

/// Words that do not fit on the row being filled take two rows or more.
proof fn lemma_rows_two_more(w: Seq<nat>, limit: nat, i: nat, lines: nat, cur: nat)
    requires
        limit >= 1,
        i <= w.len(),
        cur <= limit,
        cur + row_length(w.skip(i as int), cur > 0) > limit,
        w.len() > 0 ==> w.last() > 0,
    ensures
        wrap_rows(w, limit, i, lines, cur) >= lines + 2,
    decreases w.len() - i, cur,
{
    if i >= w.len() {
        assert(w.skip(i as int).len() == 0);
    } else {
        lemma_skip_step(w, i);
        let len = w[i as int];
        if len == 0 {
            assert(i + 1 < w.len());
            if cur == limit {
                assert(w[w.len() - 1] > 0);
                assert(w.skip(i + 1int)[w.len() - 1 - (i + 1)] == w[w.len() - 1]);
                lemma_row_length_two(w.skip(i + 1int));
            }
            lemma_rows_two_more(w, limit, i + 1, lines, if cur > 0 && cur < limit { cur + 1 } else { cur });
        } else if cur == 0 {
            if len > limit {
                assert(ceil_div(len, limit) >= 2) by (nonlinear_arith)
                    requires
                        len > limit,
                        limit >= 1,
                        ceil_div(len, limit) == (if len % limit == 0 { len / limit } else { len / limit + 1 }),
                ;
                lemma_rows_at_least(w, limit, i + 1, lines + ceil_div(len, limit), len % limit);
            } else {
                lemma_rows_two_more(w, limit, i + 1, lines, len);
            }
        } else if cur + 1 + len <= limit {
            lemma_rows_two_more(w, limit, i + 1, lines, cur + 1 + len);
        } else {
            lemma_rows_one_more(w, limit, i, lines + 1, 0);
        }
    }
}

/// Words that fit on the row being filled take no more rows.
proof fn lemma_rows_fit(w: Seq<nat>, limit: nat, i: nat, lines: nat, cur: nat)
    requires
        limit >= 1,
        i <= w.len(),
        cur + row_length(w.skip(i as int), cur > 0) <= limit,
    ensures
        wrap_rows(w, limit, i, lines, cur) <= lines + 1,
    decreases w.len() - i, cur,
{
    if i < w.len() {
        lemma_skip_step(w, i);
        let len = w[i as int];
        if len == 0 {
            lemma_rows_fit(w, limit, i + 1, lines, if cur > 0 && cur < limit { cur + 1 } else { cur });
        } else if cur == 0 {
            lemma_rows_fit(w, limit, i + 1, lines, len);
        } else {
            lemma_rows_fit(w, limit, i + 1, lines, cur + 1 + len);
        }
    }
}

/// No more rows than the words' weight, and one for the row being filled.
proof fn lemma_rows_at_most(w: Seq<nat>, limit: nat, i: nat, lines: nat, cur: nat)
    requires
        limit >= 1,
        i <= w.len(),
    ensures
        wrap_rows(w, limit, i, lines, cur) <= lines + weight(w.skip(i as int)) + (if cur > 0 { 1nat } else { 0nat }),
    decreases w.len() - i, cur,
{
    if i < w.len() {
        lemma_skip_step(w, i);
        let len = w[i as int];
        if len == 0 {
            lemma_rows_at_most(w, limit, i + 1, lines, if cur > 0 && cur < limit { cur + 1 } else { cur });
        } else if cur == 0 {
            if len > limit {
                assert(ceil_div(len, limit) + (if len % limit > 0 { 1nat } else { 0nat }) <= len) by (nonlinear_arith)
                    requires
                        len > limit,
                        limit >= 1,
                        ceil_div(len, limit) == (if len % limit == 0 { len / limit } else { len / limit + 1 }),
                ;
                lemma_rows_at_most(w, limit, i + 1, lines + ceil_div(len, limit), len % limit);
            } else {
                lemma_rows_at_most(w, limit, i + 1, lines, len);
            }
        } else if cur + 1 + len <= limit {
            lemma_rows_at_most(w, limit, i + 1, lines, cur + 1 + len);
        } else {
            lemma_rows_at_most(w, limit, i, lines + 1, 0);
        }
    } else {
        assert(w.skip(i as int) =~= Seq::<nat>::empty());
    }
}

/// On one row, the words of `t` take its characters, and `c` more for the
/// part of the first word already counted.
proof fn lemma_row_length_text(t: Seq<char>, c: nat)
    ensures
        row_length(word_lengths_from(t, c), true) == t.len() + 1 + c,
        c > 0 ==> row_length(word_lengths_from(t, c), false) == t.len() + c,
        c == 0 ==> row_length(word_lengths_from(t, c), false) == t.len() - leading_spaces(t),
        t.len() > 0 && t.last() != ' ' ==> word_lengths_from(t, c).last() > 0,
    decreases t.len(),
{
    reveal_with_fuel(row_length, 2);
    if t.len() > 0 {
        let rest = t.drop_first();
        if t[0] == ' ' {
            lemma_row_length_text(rest, 0);
            let r = word_lengths_from(rest, 0);
            assert((seq![c] + r).drop_first() =~= r);
            assert((seq![c] + r)[0] == c);
            if t.len() > 1 {
                assert(rest.last() == t.last());
            }
        } else {
            lemma_row_length_text(rest, c + 1);
            if t.len() > 1 {
                assert(rest.last() == t.last());
            }
        }
    } else {
        assert(seq![c].drop_first() =~= Seq::<nat>::empty());
    }
}

/// The standard help line's text: its length, start and end.
#[verifier::rlimit(60)]
proof fn lemma_help_text_standard()
    ensures
        one_row_width(false) == 147,
        concat_texts(segments_spec(false)).last() != ' ',
        concat_texts(segments_spec(false)).len() <= 400,
{
    reveal_with_fuel(concat_texts, 24);
    reveal_strlit("Move: ");
    reveal_strlit("↑/↓/j/k");
    reveal_strlit("  •  ");
    reveal_strlit("Run: ");
    reveal_strlit("r/Enter");
    reveal_strlit("Run All: ");
    reveal_strlit("A");
    reveal_strlit("Stop: ");
    reveal_strlit("s/S");
    reveal_strlit("Interactive: ");
    reveal_strlit("i");
    reveal_strlit("Scroll: ");
    reveal_strlit("PgUp/PgDn/Shift+↑/Shift+↓");
    reveal_strlit("Clear: ");
    reveal_strlit("c/C");
    reveal_strlit("Quit: ");
    reveal_strlit("q/Esc");
    let u = concat_texts(segments_spec(false));
    assert(u[0] == 'M');
    assert(leading_spaces(u) == 0);
}

/// The interactive help line's text: its length, start and end.
proof fn lemma_help_text_interactive()
    ensures
        one_row_width(true) == 29,
        concat_texts(segments_spec(true)).last() != ' ',
        concat_texts(segments_spec(true)).len() <= 400,
{
    reveal_with_fuel(concat_texts, 4);
    reveal_with_fuel(leading_spaces, 3);
    reveal_strlit(" Interactive Mode ");
    reveal_strlit(" │ Exit: ");
    reveal_strlit("Esc");
    let t = concat_texts(segments_spec(true));
    assert(t[0] == ' ');
    assert(t.drop_first()[0] == 'I');
    assert(leading_spaces(t.drop_first()) == 0);
}

/// The help line takes one row exactly when the screen is at least as wide
/// as its text, leading spaces left out: 147 columns, or 29 in interactive
/// mode. A screen of no width counts as one column wide.
pub proof fn lemma_help_one_row(is_interactive: bool, width: u16)
    ensures
        help_height(is_interactive, 0) == help_height(is_interactive, 1),
        (help_height(is_interactive, width) == 1) <==> width >= one_row_width(is_interactive),
        one_row_width(false) == 147,
        one_row_width(true) == 29,
{
    lemma_help_text_standard();
    lemma_help_text_interactive();
    let t = concat_texts(segments_spec(is_interactive));
    let ws = word_lengths_from(t, 0);
    let limit: nat = if width >= 1 { width as nat } else { 1 };
    lemma_row_length_text(t, 0);
    lemma_word_lengths_weight(t, 0);
    assert(ws.skip(0) =~= ws);
    if limit >= one_row_width(is_interactive) {
        lemma_rows_fit(ws, limit, 0, 0, 0);
    } else {
        lemma_rows_two_more(ws, limit, 0, 0, 0);
        lemma_rows_at_most(ws, limit, 0, 0, 0);
    }
}

impl HelpBar {
    /// The help line's pieces and how each is drawn.
    pub fn segments(is_interactive: bool) -> (r: Vec<(&'static str, SegmentStyle)>)
        ensures
            r@.len() == segments_spec(is_interactive).len(),
            forall|i: int| 0 <= i < r@.len() ==> (#[trigger] r@[i]).0@ == segments_spec(is_interactive)[i].0
                && r@[i].1 == segments_spec(is_interactive)[i].1,
    {
        let r = if is_interactive {
            vec![
                (" Interactive Mode ", SegmentStyle::BoldYellow),
                (" │ Exit: ", SegmentStyle::Plain),
                ("Esc", SegmentStyle::BoldRed),
            ]
        } else {
            vec![
                ("Move: ", SegmentStyle::Plain),
                ("↑/↓/j/k", SegmentStyle::BoldCyan),
                ("  •  ", SegmentStyle::DarkGray),
                ("Run: ", SegmentStyle::Plain),
                ("r/Enter", SegmentStyle::BoldGreen),
                ("  •  ", SegmentStyle::DarkGray),
                ("Run All: ", SegmentStyle::Plain),
                ("A", SegmentStyle::BoldGreen),
                ("  •  ", SegmentStyle::DarkGray),
                ("Stop: ", SegmentStyle::Plain),
                ("s/S", SegmentStyle::BoldRed),
                ("  •  ", SegmentStyle::DarkGray),
                ("Interactive: ", SegmentStyle::Plain),
                ("i", SegmentStyle::BoldYellow),
                ("  •  ", SegmentStyle::DarkGray),
                ("Scroll: ", SegmentStyle::Plain),
                ("PgUp/PgDn/Shift+↑/Shift+↓", SegmentStyle::BoldCyan),
                ("  •  ", SegmentStyle::DarkGray),
                ("Clear: ", SegmentStyle::Plain),
                ("c/C", SegmentStyle::BoldYellow),
                ("  •  ", SegmentStyle::DarkGray),
                ("Quit: ", SegmentStyle::Plain),
                ("q/Esc", SegmentStyle::BoldRed),
            ]
        };
        r
    }

    /// The help line as plain text.
    pub fn plain_text(is_interactive: bool) -> (r: String)
        ensures
            r@ == concat_texts(segments_spec(is_interactive)),
    {
        let segs = HelpBar::segments(is_interactive);
        let ghost spec_segs = segments_spec(is_interactive);
        let mut r = String::new();
        let mut i: usize = 0;
        while i < segs.len()
            invariant
                spec_segs == segments_spec(is_interactive),
                segs@.len() == spec_segs.len(),
                forall|k: int| 0 <= k < segs@.len() ==> (#[trigger] segs@[k]).0@ == spec_segs[k].0,
                i <= segs@.len(),
                r@ == concat_texts(spec_segs.take(i as int)),
            decreases segs@.len() - i,
        {
            r.append(segs[i].0);
            proof {
                assert(spec_segs.take(i + 1).drop_last() =~= spec_segs.take(i as int));
            }
            i += 1;
        }
        proof {
            assert(spec_segs.take(segs@.len() as int) =~= spec_segs);
        }
        r
    }

    /// The rows the help line takes on a screen `width` columns wide, the
    /// line being wrapped at spaces.
    pub fn estimate_height(is_interactive: bool, width: u16) -> (h: u16)
        ensures
            h == help_height(is_interactive, width),
            h >= 1,
    {
        let plain_text = HelpBar::plain_text(is_interactive);
        let chars = crate::text::chars_of(plain_text.as_str());
        let limit: usize = if width >= 1 { width as usize } else { 1 };
        let ghost s = chars@;

        // the lengths of the words between spaces
        let mut words: Vec<usize> = Vec::new();
        let mut count: usize = 0;
        let mut k: usize = 0;
        proof {
            assert(s.skip(0) =~= s);
        }
        while k < chars.len()
            invariant
                s == chars@,
                k <= s.len(),
                count <= k,
                words@.len() <= k,
                forall|q: int| 0 <= q < words@.len() ==> #[trigger] words@[q] <= k,
                words@.map_values(|x: usize| x as nat) + word_lengths_from(s.skip(k as int), count as nat)
                    == word_lengths_from(s, 0),
            decreases s.len() - k,
        {
            let ghost rest = s.skip(k as int);
            proof {
                assert(rest.drop_first() =~= s.skip(k + 1));
                assert(rest[0] == chars@[k as int]);
            }
            if chars[k] == ' ' {
                let ghost w0 = words@;
                words.push(count);
                proof {
                    assert(words@.map_values(|x: usize| x as nat) =~= w0.map_values(|x: usize| x as nat).push(
                        count as nat,
                    ));
                    assert(word_lengths_from(rest, count as nat) == seq![count as nat]
                        + word_lengths_from(s.skip(k + 1), 0));
                    assert(w0.map_values(|x: usize| x as nat).push(count as nat) + word_lengths_from(
                        s.skip(k + 1),
                        0,
                    ) =~= w0.map_values(|x: usize| x as nat) + (seq![count as nat] + word_lengths_from(
                        s.skip(k + 1),
                        0,
                    )));
                }
                count = 0;
            } else {
                count += 1;
            }
            k += 1;
        }
        let ghost w0 = words@;
        words.push(count);
        let ghost ws = words@.map_values(|x: usize| x as nat);
        proof {
            lemma_help_text_short(is_interactive);
            lemma_word_lengths_weight(s, 0);
            assert(ws.take(0) =~= Seq::<nat>::empty());
            assert(s.skip(s.len() as int) =~= Seq::<char>::empty());
            assert(ws =~= w0.map_values(|x: usize| x as nat).push(count as nat));
            assert(ws == word_lengths_from(s, 0));
        }

        // lay the words out row by row
        let mut lines: usize = 0;
        let mut current_line_len: usize = 0;
        let mut i: usize = 0;
        while i < words.len()
            invariant
                ws == words@.map_values(|x: usize| x as nat),
                ws.len() == words@.len(),
                ws.len() <= s.len() + 1,
                forall|q: int| 0 <= q < words@.len() ==> #[trigger] words@[q] <= s.len(),
                s.len() <= 400,
                weight(ws) == s.len() + 1,
                1 <= limit <= 65535,
                i <= words@.len(),
                current_line_len <= limit,
                lines + (if current_line_len > 0 { 1nat } else { 0nat }) <= weight(ws.take(i as int)),
                wrap_rows(ws, limit as nat, i as nat, lines as nat, current_line_len as nat)
                    == wrap_rows(ws, limit as nat, 0, 0, 0),
            decreases words@.len() - i, current_line_len,
        {
            let word_len = words[i];
            proof {
                assert(ws[i as int] == word_len as nat);
                assert(ws.take(i + 1).drop_last() =~= ws.take(i as int));
                lemma_weight_concat(ws.take(i + 1), ws.skip(i + 1));
                assert(ws.take(i + 1) + ws.skip(i + 1) =~= ws);
            }
            if word_len == 0 {
                if current_line_len > 0 && current_line_len < limit {
                    current_line_len += 1;
                }
                i += 1;
                continue;
            }
            if current_line_len == 0 {
                if word_len > limit {
                    let rows = word_len / limit + if word_len % limit != 0 { 1 } else { 0 };
                    proof {
                        assert(word_len / limit <= word_len) by (nonlinear_arith)
                            requires limit >= 1;
                        assert(word_len % limit < limit) by (nonlinear_arith)
                            requires limit >= 1;
                        if word_len % limit != 0 {
                            assert(word_len / limit < word_len) by (nonlinear_arith)
                                requires limit >= 1, word_len > limit, word_len % limit != 0;
                        }
                    }
                    lines += rows;
                    current_line_len = word_len % limit;
                } else {
                    current_line_len = word_len;
                }
            } else {
                if current_line_len + 1 + word_len <= limit {
                    current_line_len += 1 + word_len;
                } else {
                    lines += 1;
                    current_line_len = 0;
                    continue;
                }
            }
            i += 1;
        }
        proof {
            assert(ws.take(ws.len() as int) =~= ws);
        }
        if current_line_len > 0 {
            lines += 1;
        }
        let h = if lines >= 1 { lines } else { 1 };
        h as u16
    }
}

} // verus!
