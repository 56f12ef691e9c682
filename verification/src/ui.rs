//! The scrollback pagination engine: maps an unbounded, width-dependent,
//! line-wrapped log sequence onto a fixed-size viewport, preserving the
//! user's scroll intent while content grows and keeping the view pinned to
//! the tail when it was already there.
use vstd::arithmetic::div_mod::lemma_fundamental_div_mod;
use vstd::arithmetic::mul::lemma_mul_inequality;
use vstd::prelude::*;
use vstd::string::*;

verus! {

/// How many screen rows one logical line occupies at the given viewport
/// width: one row per started width-sized piece, and a zero-length line
/// still occupies exactly one row.
pub open spec fn row_count(line: Seq<char>, width: nat) -> nat
    recommends
        width >= 1,
{
    if line.len() == 0 {
        1
    } else {
        ((line.len() as int - 1) / (width as int) + 1) as nat
    }
}

/// The number of screen rows of the first `i` logical lines together.
pub open spec fn rows_up_to(logs: Seq<Seq<char>>, width: nat, i: int) -> nat
    decreases i,
{
    if i <= 0 {
        0
    } else {
        rows_up_to(logs, width, i - 1) + row_count(logs[i - 1], width)
    }
}

/// The number of screen rows of all logical lines together.
pub open spec fn total_rows(logs: Seq<Seq<char>>, width: nat) -> nat {
    rows_up_to(logs, width, logs.len() as int)
}

/// The wrapped rows of the logical line at index `idx`: the line's index
/// paired with the character offset at which each of its rows starts.
pub open spec fn line_rows(idx: int, cnt: nat, width: nat) -> Seq<(int, int)> {
    Seq::new(cnt, |k: int| (idx, k * width))
}

/// The wrapped rows of the first `i` logical lines, in display order.
pub open spec fn rows_list(logs: Seq<Seq<char>>, width: nat, i: int) -> Seq<(int, int)>
    decreases i,
{
    if i <= 0 {
        Seq::empty()
    } else {
        rows_list(logs, width, i - 1) + line_rows(
            i - 1,
            row_count(logs[i - 1], width),
            width,
        )
    }
}

proof fn lemma_rows_list_len(logs: Seq<Seq<char>>, width: nat, i: int)
    ensures
        rows_list(logs, width, i).len() == rows_up_to(logs, width, i),
    decreases i,
{
    if i <= 0 {
    } else {
        lemma_rows_list_len(logs, width, i - 1);
    }
}

proof fn lemma_rows_list_index(logs: Seq<Seq<char>>, width: nat, li: int, k: int, j: int)
    requires
        width >= 1,
        0 <= li < logs.len(),
        0 <= k < row_count(logs[li], width),
        li < j <= logs.len(),
    ensures
        rows_up_to(logs, width, li) + k < rows_list(logs, width, j).len(),
        rows_list(logs, width, j)[rows_up_to(logs, width, li) + k] == (li, k * (width as int)),
    decreases j,
{
    lemma_rows_list_len(logs, width, j - 1);
    if j == li + 1 {
        assert(line_rows(li, row_count(logs[li], width), width)[k] == (li, k * (width as int)));
    } else {
        lemma_rows_list_index(logs, width, li, k, j - 1);
    }
}

/// Rows counts only grow along the list of logical lines.
proof fn lemma_rows_up_to_monotonic(logs: Seq<Seq<char>>, width: nat, i: int, j: int)
    requires
        0 <= i <= j,
    ensures
        rows_up_to(logs, width, i) <= rows_up_to(logs, width, j),
    decreases j - i,
{
    if i < j {
        lemma_rows_up_to_monotonic(logs, width, i, j - 1);
    }
}

/// What the engine reports for a scroll request: the index of the first
/// visible logical line, the character offset of the first visible cell
/// within it, the clamped scroll position in wrapped-row units, and whether
/// the viewport ends at the last wrapped row of the last logical line.
///
/// The requested position is taken as the wrapped row that should become the
/// top of the viewport; the viewport covers `height` rows from there, and a
/// request at or past the end clamps so that the last rows fill the
/// viewport. With no logical lines at all the report is `(0, 0, 0, true)`.
pub open spec fn page_spec(logs: Seq<Seq<char>>, width: nat, height: nat, scroll_y: nat) -> (
    int,
    int,
    int,
    bool,
) {
    let target = if scroll_y + height > usize::MAX {
        usize::MAX as nat
    } else {
        (scroll_y + height) as nat
    };
    let total = total_rows(logs, width);
    let n = if total < target {
        total
    } else {
        target
    };
    let actual = if n > height {
        n - height
    } else {
        0
    };
    let pos = if actual < n {
        rows_list(logs, width, logs.len() as int)[actual as int]
    } else {
        (0, 0)
    };
    (pos.0, pos.1, actual as int, target >= total)
}

pub open spec fn cast_rows(s: Seq<(usize, usize)>) -> Seq<(int, int)> {
    s.map_values(|p: (usize, usize)| (p.0 as int, p.1 as int))
}

/// Finds the logical line and in-line character offset of the wrapped row
/// that the requested scroll position resolves to, walking cumulative row
/// counts across the logical lines in order. Also reports the clamped
/// scroll position and whether the view ends at the bottom.
pub fn get_log_at_scroll_pos(logs: &Vec<String>, width: usize, height: usize, scroll_y: usize) -> (r: (
    usize,
    usize,
    usize,
    bool,
))
    requires
        width >= 1,
    ensures
        ({
            let page = page_spec(logs.deep_view(), width as nat, height as nat, scroll_y as nat);
            r.0 == page.0 && r.1 == page.1 && r.2 == page.2 && r.3 == page.3
        }),
{
    let ghost logsv = logs.deep_view();
    let ghost ll = rows_list(logsv, width as nat, logsv.len() as int);
    let target = scroll_y.saturating_add(height);
    let mut rows: Vec<(usize, usize)> = Vec::new();
    let mut at_bottom = logs.len() == 0;
    let mut li: usize = 0;
    proof {
        lemma_rows_list_len(logsv, width as nat, logsv.len() as int);
        assert(cast_rows(rows@) =~= ll.take(0));
    }
    while li < logs.len() && rows.len() < target
        invariant
            width >= 1,
            logsv == logs.deep_view(),
            ll == rows_list(logsv, width as nat, logsv.len() as int),
            ll.len() == total_rows(logsv, width as nat),
            0 <= li <= logs.len(),
            rows.len() <= target,
            rows.len() <= total_rows(logsv, width as nat),
            rows_up_to(logsv, width as nat, li as int) <= rows.len(),
            rows.len() < target ==> rows.len() == rows_up_to(logsv, width as nat, li as int),
            cast_rows(rows@) == ll.take(rows.len() as int),
            at_bottom == (rows.len() == total_rows(logsv, width as nat)),
        ensures
            cast_rows(rows@) == ll.take(rows.len() as int),
            at_bottom == (rows.len() == total_rows(logsv, width as nat)),
            rows.len() == if total_rows(logsv, width as nat) < target as nat {
                total_rows(logsv, width as nat)
            } else {
                target as nat
            },
        decreases logs.len() - li,
    {
        let line = &logs[li];
        let chars = line.as_str().unicode_len();
        let cnt = if chars == 0 {
            1
        } else {
            (chars - 1) / width + 1
        };
        proof {
            assert(logsv[li as int] == logs@[li as int].deep_view());
            assert(cnt == row_count(logsv[li as int], width as nat));
        }
        let is_last = li == logs.len() - 1;
        let mut k: usize = 0;
        while k < cnt && rows.len() < target
            invariant
                width >= 1,
                logsv == logs.deep_view(),
                ll == rows_list(logsv, width as nat, logsv.len() as int),
                ll.len() == total_rows(logsv, width as nat),
                li < logs.len(),
                is_last == (li == logs.len() - 1),
                cnt == row_count(logsv[li as int], width as nat),
                chars == logsv[li as int].len(),
                0 <= k <= cnt,
                rows.len() <= target,
                rows.len() == rows_up_to(logsv, width as nat, li as int) + k,
                cast_rows(rows@) == ll.take(rows.len() as int),
                at_bottom == (rows.len() == total_rows(logsv, width as nat)),
            decreases cnt - k,
        {
            proof {
                if chars > 0 {
                    let q = (chars as int - 1) / (width as int);
                    lemma_fundamental_div_mod(chars as int - 1, width as int);
                    lemma_mul_inequality(k as int, q, width as int);
                    vstd::arithmetic::mul::lemma_mul_is_commutative(width as int, q);
                    assert(q * (width as int) <= chars as int - 1);
                    assert((k as int) * (width as int) <= chars as int - 1);
                } else {
                    assert(k == 0);
                }
                assert(k * width <= usize::MAX);
            }
            let off = k * width;
            let ghost n0 = rows.len();
            rows.push((li, off));
            proof {
                lemma_rows_list_index(logsv, width as nat, li as int, k as int, logsv.len() as int);
                lemma_rows_up_to_monotonic(logsv, width as nat, li as int + 1, logsv.len() as int);
                assert(ll[n0 as int] == (li as int, k * (width as int)));
                assert(cast_rows(rows@) =~= ll.take(n0 as int).push((li as int, off as int)));
                assert(ll.take(n0 + 1) =~= ll.take(n0 as int).push(ll[n0 as int]));
                assert(rows.len() == total_rows(logsv, width as nat) ==> (is_last && k == cnt
                    - 1)) by {
                    if rows.len() == total_rows(logsv, width as nat) {
                        lemma_rows_up_to_monotonic(
                            logsv,
                            width as nat,
                            li as int + 1,
                            logsv.len() as int,
                        );
                    }
                };
                if is_last && k == cnt - 1 {
                    assert(rows.len() == rows_up_to(logsv, width as nat, logsv.len() as int));
                }
            }
            at_bottom = is_last && k == cnt - 1;
            k += 1;
        }
        proof {
            lemma_rows_up_to_monotonic(logsv, width as nat, li as int + 1, logsv.len() as int);
            assert(rows.len() <= rows_up_to(logsv, width as nat, li as int + 1));
        }
        if rows.len() < target {
            li += 1;
        } else {
            break;
        }
    }
    proof {
        if li >= logs.len() && rows.len() < target {
            assert(rows.len() == rows_up_to(logsv, width as nat, logsv.len() as int));
        }
        assert(rows.len() == if total_rows(logsv, width as nat) < target as nat {
            total_rows(logsv, width as nat)
        } else {
            target as nat
        });
    }
    let n = rows.len();
    let actual = n.saturating_sub(height);
    proof {
        let page = page_spec(logs.deep_view(), width as nat, height as nat, scroll_y as nat);
        assert(actual as int == page.2);
        assert(at_bottom == page.3);
        if actual < n {
            assert(cast_rows(rows@)[actual as int] == ll[actual as int]);
            assert((page.0, page.1) == ll[actual as int]);
        }
    }
    if actual < n {
        let row = rows[actual];
        (row.0, row.1, actual, at_bottom)
    } else {
        (0, 0, actual, at_bottom)
    }
}

/// The texts of up to `count` wrapped rows, read from character offset
/// `off` of the logical line at `li` and continuing through the following
/// lines: each row is the next at-most-`width`-character slice of its line,
/// and a zero-length line contributes one empty row.
pub open spec fn rows_from(logs: Seq<Seq<char>>, width: nat, li: int, off: int, count: nat) -> Seq<
    Seq<char>,
>
    decreases count,
{
    if count == 0 || li < 0 || li >= logs.len() {
        Seq::empty()
    } else {
        let line = logs[li];
        let end = if off + width <= line.len() {
            off + width
        } else {
            line.len() as int
        };
        let text = line.subrange(off, end);
        let rest = if end < line.len() {
            rows_from(logs, width, li, end, (count - 1) as nat)
        } else {
            rows_from(logs, width, li + 1, 0, (count - 1) as nat)
        };
        seq![text] + rest
    }
}

/// Reads the wrapped rows that fill a viewport of `height` rows, starting
/// at character offset `char_offset` of the logical line at `log_idx` (as
/// resolved by the pagination engine) and continuing through the following
/// lines, top to bottom.
pub fn visible_rows(
    logs: &Vec<String>,
    width: usize,
    height: usize,
    log_idx: usize,
    char_offset: usize,
) -> (rows: Vec<String>)
    requires
        width >= 1,
        log_idx < logs.len() ==> char_offset <= logs@[log_idx as int]@.len(),
    ensures
        rows.deep_view() == rows_from(
            logs.deep_view(),
            width as nat,
            log_idx as int,
            char_offset as int,
            height as nat,
        ),
{
    let ghost logsv = logs.deep_view();
    let ghost goal = rows_from(logsv, width as nat, log_idx as int, char_offset as int, height as nat);
    let mut rows: Vec<String> = Vec::new();
    let mut li = log_idx;
    let mut off = char_offset;
    let mut remaining = height;
    proof {
        assert(rows.deep_view() =~= Seq::<Seq<char>>::empty());
        assert(rows.deep_view() + goal =~= goal);
    }
    while remaining > 0 && li < logs.len()
        invariant
            width >= 1,
            logsv == logs.deep_view(),
            remaining <= height,
            li < logs.len() ==> off <= logs@[li as int]@.len(),
            goal == rows.deep_view() + rows_from(
                logsv,
                width as nat,
                li as int,
                off as int,
                remaining as nat,
            ),
        decreases remaining,
    {
        let line = &logs[li];
        let n = line.as_str().unicode_len();
        let end = if width <= n - off {
            off + width
        } else {
            n
        };
        let text = line.as_str().substring_char(off, end).to_owned();
        let ghost t: String = text;
        let ghost rows0 = rows@;
        let ghost suffix0 = rows_from(logsv, width as nat, li as int, off as int, remaining as nat);
        rows.push(text);
        proof {
            crate::file_watch::lemma_deep_view_push(rows0, rows@, t);
            assert(t@ == logsv[li as int].subrange(off as int, end as int));
        }
        if end < n {
            off = end;
        } else {
            li += 1;
            off = 0;
        }
        remaining -= 1;
        proof {
            let suffix1 = rows_from(logsv, width as nat, li as int, off as int, remaining as nat);
            assert(suffix0 =~= seq![t@] + suffix1);
            assert(goal =~= rows.deep_view() + suffix1);
        }
    }
    proof {
        assert(rows_from(logsv, width as nat, li as int, off as int, remaining as nat)
            =~= Seq::<Seq<char>>::empty());
        assert(goal =~= rows.deep_view());
    }
    rows
}

/// Every wrapped row of the row list names a real logical line and a
/// character offset inside it.
proof fn lemma_rows_list_valid(logs: Seq<Seq<char>>, width: nat, i: int)
    requires
        width >= 1,
        i <= logs.len(),
    ensures
        forall|r: int|
            0 <= r < rows_list(logs, width, i).len() ==> {
                let p = #[trigger] rows_list(logs, width, i)[r];
                0 <= p.0 < i && 0 <= p.1 <= logs[p.0].len()
            },
    decreases i,
{
    if i <= 0 {
    } else {
        lemma_rows_list_valid(logs, width, i - 1);
        let prev = rows_list(logs, width, i - 1);
        let cnt = row_count(logs[i - 1], width);
        let extra = line_rows(i - 1, cnt, width);
        assert forall|r: int| 0 <= r < rows_list(logs, width, i).len() implies {
            let p = #[trigger] rows_list(logs, width, i)[r];
            0 <= p.0 < i && 0 <= p.1 <= logs[p.0].len()
        } by {
            if r >= prev.len() {
                let k = r - prev.len();
                assert(extra[k] == (i - 1, k * (width as int)));
                let line = logs[i - 1];
                if line.len() == 0 {
                    assert(k == 0);
                } else {
                    lemma_fundamental_div_mod(line.len() as int - 1, width as int);
                    lemma_mul_inequality(k, (line.len() as int - 1) / (width as int), width as int);
                }
            }
        }
    }
}

impl App {
    /// One full frame of the view as a pure value transform: resolves the
    /// page for the current lines, scroll request and pagination state, and
    /// returns the wrapped rows that the viewport shows, top to bottom. The
    /// scroll state is updated exactly as by `frame`.
    pub fn visible_page(&mut self, width: usize, height: u16) -> (rows: Vec<String>)
        requires
            width >= 1,
        ensures
            ({
                let eff = if old(self).logs.len() > old(self).logs_widget_state.last_log_count
                    && old(self).logs_widget_state.was_at_bottom {
                    usize::MAX as nat
                } else {
                    old(self).vertical_scroll_pos as nat
                };
                let page = page_spec(
                    old(self).logs.deep_view(),
                    width as nat,
                    height as nat,
                    eff,
                );
                rows.deep_view() == rows_from(
                    old(self).logs.deep_view(),
                    width as nat,
                    page.0,
                    page.1,
                    height as nat,
                ) && final(self).vertical_scroll_pos == page.2
                    && final(self).logs@ == old(self).logs@
                    && final(self).logs_widget_state.actual_scroll_y == page.2
                    && final(self).logs_widget_state.was_at_bottom == page.3
            }),
            ({
                // the viewport shows exactly the wrapped rows from the
                // clamped scroll position on, as many as it has room for
                // and the content still has
                let logsv = old(self).logs.deep_view();
                let eff = if old(self).logs.len() > old(self).logs_widget_state.last_log_count
                    && old(self).logs_widget_state.was_at_bottom {
                    usize::MAX as nat
                } else {
                    old(self).vertical_scroll_pos as nat
                };
                let page = page_spec(logsv, width as nat, height as nat, eff);
                let total = total_rows(logsv, width as nat);
                let ll = rows_list(logsv, width as nat, logsv.len() as int);
                let m = if height as int <= total - page.2 {
                    height as int
                } else {
                    total - page.2
                };
                height > 0 && total > 0 ==> rows.deep_view() == Seq::new(
                    m as nat,
                    |j: int| row_text(logsv, width as nat, ll[page.2 + j]),
                )
            }),
    {
        let ghost logsv = self.logs.deep_view();
        let ghost eff = if self.logs.len() > self.logs_widget_state.last_log_count
            && self.logs_widget_state.was_at_bottom {
            usize::MAX as nat
        } else {
            self.vertical_scroll_pos as nat
        };
        let pos = self.frame(width, height);
        proof {
            lemma_rows_list_len(logsv, width as nat, logsv.len() as int);
            lemma_rows_list_valid(logsv, width as nat, logsv.len() as int);
            let page = page_spec(logsv, width as nat, height as nat, eff);
            let total = total_rows(logsv, width as nat);
            if height > 0 && total > 0 {
                assert(0 <= page.2 < total);
                lemma_rows_from_list(logsv, width as nat, page.2, height as nat);
            }
        }
        visible_rows(&self.logs, width, height as usize, pos.0, pos.1)
    }
}

/// The text of one wrapped row of the row list: the at-most-`width`
/// characters of its logical line from the row's character offset on.
pub open spec fn row_text(logs: Seq<Seq<char>>, width: nat, p: (int, int)) -> Seq<char> {
    let line = logs[p.0];
    let end = if p.1 + width <= line.len() {
        p.1 + width
    } else {
        line.len() as int
    };
    line.subrange(p.1, end)
}

proof fn lemma_row_decompose(logs: Seq<Seq<char>>, width: nat, i: int, r: int) -> (p: (int, int))
    requires
        width >= 1,
        0 <= r < rows_up_to(logs, width, i),
        i <= logs.len(),
    ensures
        0 <= p.0 < i,
        0 <= p.1 < row_count(logs[p.0], width),
        r == rows_up_to(logs, width, p.0) + p.1,
    decreases i,
{
    if r >= rows_up_to(logs, width, i - 1) {
        (i - 1, r - rows_up_to(logs, width, i - 1))
    } else {
        lemma_row_decompose(logs, width, i - 1, r)
    }
}

/// Reading wrapped rows from the row at index `r` of the row list yields
/// exactly the texts of the rows at indices `r, r + 1, ...` of the list: as
/// many as were asked for, or as many as the content still has after `r`.
pub proof fn lemma_rows_from_list(logs: Seq<Seq<char>>, width: nat, r: int, count: nat)
    requires
        width >= 1,
        0 <= r < total_rows(logs, width),
    ensures
        ({
            let ll = rows_list(logs, width, logs.len() as int);
            let m = if count <= total_rows(logs, width) - r {
                count as int
            } else {
                total_rows(logs, width) - r
            };
            rows_from(logs, width, ll[r].0, ll[r].1, count) == Seq::new(
                m as nat,
                |j: int| row_text(logs, width, ll[r + j]),
            )
        }),
    decreases count,
{
    let ll = rows_list(logs, width, logs.len() as int);
    let total = total_rows(logs, width);
    lemma_rows_list_len(logs, width, logs.len() as int);
    let p = lemma_row_decompose(logs, width, logs.len() as int, r);
    let li = p.0;
    let k = p.1;
    lemma_rows_list_index(logs, width, li, k, logs.len() as int);
    assert(ll[r] == (li, k * (width as int)));
    let line = logs[li];
    let off = k * (width as int);
    if line.len() == 0 {
        assert(k == 0 && off == 0);
    } else {
        lemma_fundamental_div_mod(line.len() as int - 1, width as int);
        lemma_mul_inequality(k, (line.len() as int - 1) / (width as int), width as int);
        assert(off <= line.len() - 1);
    }
    if count == 0 {
        assert(rows_from(logs, width, li, off, 0) =~= Seq::new(
            0,
            |j: int| row_text(logs, width, ll[r + j]),
        ));
    } else {
        let end = if off + width <= line.len() {
            off + width
        } else {
            line.len() as int
        };
        let text = line.subrange(off, end);
        assert(text == row_text(logs, width, ll[r]));
        let m = if count <= total - r {
            count as int
        } else {
            total - r
        };
        if end < line.len() {
            // the next row stays within this logical line
            assert((k + 1) * (width as int) == off + width) by {
                vstd::arithmetic::mul::lemma_mul_is_distributive_add_other_way(
                    width as int,
                    k,
                    1,
                );
            };
            assert(k + 1 < row_count(line, width)) by {
                lemma_fundamental_div_mod(line.len() as int - 1, width as int);
                vstd::arithmetic::div_mod::lemma_div_is_ordered(
                    (k + 1) * (width as int),
                    line.len() as int - 1,
                    width as int,
                );
                vstd::arithmetic::div_mod::lemma_div_multiples_vanish(k + 1, width as int);
            };
            lemma_rows_up_to_monotonic(logs, width, li + 1, logs.len() as int);
            assert(r + 1 < total);
            lemma_rows_list_index(logs, width, li, k + 1, logs.len() as int);
            assert(ll[r + 1] == (li, end));
            lemma_rows_from_list(logs, width, r + 1, (count - 1) as nat);
            assert(rows_from(logs, width, li, off, count) =~= Seq::new(
                m as nat,
                |j: int| row_text(logs, width, ll[r + j]),
            ));
        } else {
            // this was the last row of its logical line
            assert(k == row_count(line, width) - 1) by {
                if line.len() > 0 && k + 1 < row_count(line, width) {
                    let q = (line.len() as int - 1) / (width as int);
                    lemma_fundamental_div_mod(line.len() as int - 1, width as int);
                    vstd::arithmetic::mul::lemma_mul_is_commutative(width as int, q);
                    assert(q * (width as int) <= line.len() as int - 1);
                    lemma_mul_inequality(k + 1, q, width as int);
                    assert((k + 1) * (width as int) <= line.len() as int - 1);
                    assert((k + 1) * (width as int) == off + width) by {
                        vstd::arithmetic::mul::lemma_mul_is_distributive_add_other_way(
                            width as int,
                            k,
                            1,
                        );
                    };
                    assert(false);
                }
            };
            assert(r + 1 == rows_up_to(logs, width, li + 1));
            if li + 1 < logs.len() {
                lemma_rows_up_to_monotonic(logs, width, li + 2, logs.len() as int);
                assert(r + 1 < total);
                lemma_rows_list_index(logs, width, li + 1, 0, logs.len() as int);
                assert(ll[r + 1] == (li + 1, 0int));
                lemma_rows_from_list(logs, width, r + 1, (count - 1) as nat);
                assert(rows_from(logs, width, li, off, count) =~= Seq::new(
                    m as nat,
                    |j: int| row_text(logs, width, ll[r + j]),
                ));
            } else {
                assert(r + 1 == total);
                assert(m == 1);
                assert(rows_from(logs, width, li + 1, 0, (count - 1) as nat) =~= Seq::<
                    Seq<char>,
                >::empty());
                assert(rows_from(logs, width, li, off, count) =~= Seq::new(
                    m as nat,
                    |j: int| row_text(logs, width, ll[r + j]),
                ));
            }
        }
    }
}

/// The pagination state that persists from one rendered frame to the next.
pub struct LogsWidgetState {
    /// The clamped scroll position of the last frame, in wrapped-row units.
    pub actual_scroll_y: usize,
    /// Whether the last frame ended at the bottom row of the content.
    pub was_at_bottom: bool,
    /// How many logical lines the last frame was given.
    pub last_log_count: usize,
    /// The viewport height of the last frame.
    pub height: u16,
}

impl Default for LogsWidgetState {
    /// The state before any frame: nothing shown yet, not at the bottom.
    fn default() -> (s: LogsWidgetState)
        ensures
            s.actual_scroll_y == 0,
            !s.was_at_bottom,
            s.last_log_count == 0,
            s.height == 0,
    {
        LogsWidgetState { actual_scroll_y: 0, was_at_bottom: false, last_log_count: 0, height: 0 }
    }
}

/// One frame's input to the pagination engine: the logical lines to show and
/// the caller's requested scroll position.
pub struct LogsWidget {
    pub logs: Vec<String>,
    pub scroll_y: usize,
}

impl LogsWidget {
    pub fn new(logs: Vec<String>) -> (w: LogsWidget)
        ensures
            w.logs == logs,
            w.scroll_y == 0,
    {
        LogsWidget { logs, scroll_y: 0 }
    }

    #[must_use]
    pub fn scroll(self, y: usize) -> (w: LogsWidget)
        ensures
            w.logs == self.logs,
            w.scroll_y == y,
    {
        LogsWidget { scroll_y: y, ..self }
    }

    /// The scroll request this frame actually honours: the jump-to-end
    /// sentinel when content grew while the previous frame ended at the
    /// bottom (auto-follow), otherwise the caller's request, verbatim.
    pub open spec fn effective_scroll(&self, state: LogsWidgetState) -> nat {
        if self.logs.len() > state.last_log_count && state.was_at_bottom {
            usize::MAX as nat
        } else {
            self.scroll_y as nat
        }
    }

    /// Resolves one frame: applies the auto-follow rule, finds the first
    /// visible logical line and character offset for the effective scroll
    /// request, and records this frame's outcome in the state. Returns the
    /// position `(logical line index, character offset)` at which drawing
    /// starts.
    pub fn resolve_page(&self, width: usize, height: u16, state: &mut LogsWidgetState) -> (pos: (
        usize,
        usize,
    ))
        requires
            width >= 1,
        ensures
            ({
                let page = page_spec(
                    self.logs.deep_view(),
                    width as nat,
                    height as nat,
                    self.effective_scroll(*old(state)),
                );
                pos.0 == page.0 && pos.1 == page.1 && final(state).actual_scroll_y == page.2
                    && final(state).was_at_bottom == page.3 && final(state).last_log_count
                    == self.logs.len() && final(state).height == height
            }),
    {
        let scroll_eff = if self.logs.len() > state.last_log_count && state.was_at_bottom {
            usize::MAX
        } else {
            self.scroll_y
        };
        let r = get_log_at_scroll_pos(&self.logs, width, height as usize, scroll_eff);
        state.actual_scroll_y = r.2;
        state.last_log_count = self.logs.len();
        state.was_at_bottom = r.3;
        state.height = height;
        (r.0, r.1)
    }
}

/// The scrollable log view: the lines currently shown, the user's scroll
/// position, and the pagination state of the last frame.
pub struct App {
    pub vertical_scroll_pos: usize,
    pub logs: Vec<String>,
    pub logs_widget_state: LogsWidgetState,
}

impl Default for App {
    /// An app with no lines and the view at the top.
    fn default() -> (a: App)
        ensures
            a.vertical_scroll_pos == 0,
            a.logs@ == Seq::<String>::empty(),
            a.logs_widget_state.actual_scroll_y == 0,
            !a.logs_widget_state.was_at_bottom,
            a.logs_widget_state.last_log_count == 0,
            a.logs_widget_state.height == 0,
    {
        App {
            vertical_scroll_pos: 0,
            logs: Vec::new(),
            logs_widget_state: LogsWidgetState::default(),
        }
    }
}

impl App {
    /// Moves the view down by the given number of wrapped rows, saturating.
    pub fn scroll_down(&mut self, scroll_amount: usize)
        ensures
            final(self).vertical_scroll_pos == if old(self).vertical_scroll_pos + scroll_amount
                > usize::MAX {
                usize::MAX as int
            } else {
                old(self).vertical_scroll_pos + scroll_amount
            },
            final(self).logs == old(self).logs,
            final(self).logs_widget_state == old(self).logs_widget_state,
    {
        self.vertical_scroll_pos = self.vertical_scroll_pos.saturating_add(scroll_amount);
    }

    /// Moves the view up by the given number of wrapped rows, saturating at
    /// the top.
    pub fn scroll_up(&mut self, scroll_amount: usize)
        ensures
            final(self).vertical_scroll_pos == if old(self).vertical_scroll_pos >= scroll_amount {
                old(self).vertical_scroll_pos - scroll_amount
            } else {
                0
            },
            final(self).logs == old(self).logs,
            final(self).logs_widget_state == old(self).logs_widget_state,
    {
        self.vertical_scroll_pos = self.vertical_scroll_pos.saturating_sub(scroll_amount);
    }

    /// Requests an absolute scroll position; `usize::MAX` is the jump-to-end
    /// sentinel.
    pub fn set_scroll(&mut self, scroll_pos: usize)
        ensures
            final(self).vertical_scroll_pos == scroll_pos,
            final(self).logs == old(self).logs,
            final(self).logs_widget_state == old(self).logs_widget_state,
    {
        self.vertical_scroll_pos = scroll_pos;
    }

    /// Replaces the logical lines shown by the view.
    pub fn set_log_lines(&mut self, logs: Vec<String>)
        ensures
            final(self).logs == logs,
            final(self).vertical_scroll_pos == old(self).vertical_scroll_pos,
            final(self).logs_widget_state == old(self).logs_widget_state,
    {
        self.logs = logs;
    }

    /// One frame of the view: resolves the page for the current lines and
    /// scroll request, updates the pagination state, and adopts the clamped
    /// scroll position as the request for the next frame. Returns the
    /// position `(logical line index, character offset)` at which drawing
    /// starts.
    pub fn frame(&mut self, width: usize, height: u16) -> (pos: (usize, usize))
        requires
            width >= 1,
        ensures
            ({
                let eff = if old(self).logs.len() > old(self).logs_widget_state.last_log_count
                    && old(self).logs_widget_state.was_at_bottom {
                    usize::MAX as nat
                } else {
                    old(self).vertical_scroll_pos as nat
                };
                let page = page_spec(
                    old(self).logs.deep_view(),
                    width as nat,
                    height as nat,
                    eff,
                );
                pos.0 == page.0 && pos.1 == page.1 && final(self).vertical_scroll_pos == page.2
                    && final(self).logs@ == old(self).logs@
                    && final(self).logs_widget_state.actual_scroll_y == page.2
                    && final(self).logs_widget_state.was_at_bottom == page.3
                    && final(self).logs_widget_state.last_log_count == old(self).logs.len()
                    && final(self).logs_widget_state.height == height
            }),
    {
        let cloned_logs = self.logs.clone();
        proof {
            assert(cloned_logs@ =~= self.logs@);
            assert(cloned_logs.deep_view() =~= self.logs.deep_view());
        }
        let widget = LogsWidget::new(cloned_logs).scroll(self.vertical_scroll_pos);
        let pos = widget.resolve_page(width, height, &mut self.logs_widget_state);
        self.vertical_scroll_pos = self.logs_widget_state.actual_scroll_y;
        pos
    }
}

/// One terminal key press, as the view understands it.
#[derive(Debug, PartialEq, Eq, Structural)]
pub enum KeyInput {
    CharKey(char),
    UpKey,
    DownKey,
    PageUpKey,
    PageDownKey,
    OtherKey,
}

/// What one key press asks of the view.
#[derive(Debug, PartialEq, Eq, Structural)]
pub enum UiAction {
    Quit,
    JumpToEnd,
    ScrollUpOne,
    ScrollDownOne,
    PageUp,
    PageDown,
    NoAction,
}

/// The key bindings: `q` quits; `g` jumps to the end; `j` and the down
/// arrow scroll down one row; `k` and the up arrow scroll up one row; the
/// page keys scroll by one viewport height; everything else does nothing.
pub open spec fn key_action_spec(key: KeyInput) -> UiAction {
    match key {
        KeyInput::CharKey(c) => if c == 'q' {
            UiAction::Quit
        } else if c == 'g' {
            UiAction::JumpToEnd
        } else if c == 'j' {
            UiAction::ScrollDownOne
        } else if c == 'k' {
            UiAction::ScrollUpOne
        } else {
            UiAction::NoAction
        },
        KeyInput::DownKey => UiAction::ScrollDownOne,
        KeyInput::UpKey => UiAction::ScrollUpOne,
        KeyInput::PageUpKey => UiAction::PageUp,
        KeyInput::PageDownKey => UiAction::PageDown,
        KeyInput::OtherKey => UiAction::NoAction,
    }
}

/// Maps one key press to the action it is bound to.
pub fn action_for_key(key: &KeyInput) -> (a: UiAction)
    ensures
        a == key_action_spec(*key),
{
    match key {
        KeyInput::CharKey(c) => {
            if *c == 'q' {
                UiAction::Quit
            } else if *c == 'g' {
                UiAction::JumpToEnd
            } else if *c == 'j' {
                UiAction::ScrollDownOne
            } else if *c == 'k' {
                UiAction::ScrollUpOne
            } else {
                UiAction::NoAction
            }
        },
        KeyInput::DownKey => UiAction::ScrollDownOne,
        KeyInput::UpKey => UiAction::ScrollUpOne,
        KeyInput::PageUpKey => UiAction::PageUp,
        KeyInput::PageDownKey => UiAction::PageDown,
        KeyInput::OtherKey => UiAction::NoAction,
    }
}

impl App {
    /// Applies one key action for this tick: scrolling moves the requested
    /// position, saturating; jump-to-end requests the sentinel; `Quit` asks
    /// the caller to leave the loop and changes nothing. The page height is
    /// the current viewport height in rows.
    pub fn apply_action(&mut self, action: &UiAction, page_height: u16) -> (quit: bool)
        ensures
            quit == (action is Quit),
            final(self).logs == old(self).logs,
            final(self).logs_widget_state == old(self).logs_widget_state,
            final(self).vertical_scroll_pos == match *action {
                UiAction::Quit => old(self).vertical_scroll_pos as int,
                UiAction::JumpToEnd => usize::MAX as int,
                UiAction::ScrollDownOne => if old(self).vertical_scroll_pos + 1 > usize::MAX {
                    usize::MAX as int
                } else {
                    old(self).vertical_scroll_pos + 1
                },
                UiAction::ScrollUpOne => if old(self).vertical_scroll_pos >= 1 {
                    old(self).vertical_scroll_pos - 1
                } else {
                    0
                },
                UiAction::PageDown => if old(self).vertical_scroll_pos + page_height
                    > usize::MAX {
                    usize::MAX as int
                } else {
                    old(self).vertical_scroll_pos + page_height
                },
                UiAction::PageUp => if old(self).vertical_scroll_pos >= page_height {
                    old(self).vertical_scroll_pos - page_height
                } else {
                    0
                },
                UiAction::NoAction => old(self).vertical_scroll_pos as int,
            },
    {
        match action {
            UiAction::Quit => true,
            UiAction::JumpToEnd => {
                self.set_scroll(usize::MAX);
                false
            },
            UiAction::ScrollDownOne => {
                self.scroll_down(1);
                false
            },
            UiAction::ScrollUpOne => {
                self.scroll_up(1);
                false
            },
            UiAction::PageDown => {
                self.scroll_down(page_height as usize);
                false
            },
            UiAction::PageUp => {
                self.scroll_up(page_height as usize);
                false
            },
            UiAction::NoAction => false,
        }
    }
}

/// Auto-follow: when the previous frame ended at the bottom and the number
/// of logical lines has grown since, the next frame substitutes the
/// jump-to-end sentinel for the caller's scroll request, so the view resolves
/// to the last page of the content and again reports the bottom as visible.
pub proof fn lemma_auto_follow(w: LogsWidget, state: LogsWidgetState, width: nat, height: nat)
    requires
        width >= 1,
        state.was_at_bottom,
        w.logs.len() > state.last_log_count,
        total_rows(w.logs.deep_view(), width) <= usize::MAX,
    ensures
        ({
            let page = page_spec(w.logs.deep_view(), width, height, w.effective_scroll(state));
            page.3 && page.2 == if total_rows(w.logs.deep_view(), width) > height {
                total_rows(w.logs.deep_view(), width) - height
            } else {
                0
            }
        }),
{
    assert(w.effective_scroll(state) == usize::MAX as nat);
}

} // verus!
