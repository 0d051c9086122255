//! Rendering a finished summary into the aligned textual report: decimal
//! formatting, column padding, the count-sorted extension table, and the
//! report assembly.

use vstd::prelude::*;

use crate::scan::{hist_view, ExtCount, ScanSummary, SummaryModel};

verus! {

/// The decimal digit character of one value below ten.
pub open spec fn spec_digit(d: int) -> char {
    if d == 0 {
        '0'
    } else if d == 1 {
        '1'
    } else if d == 2 {
        '2'
    } else if d == 3 {
        '3'
    } else if d == 4 {
        '4'
    } else if d == 5 {
        '5'
    } else if d == 6 {
        '6'
    } else if d == 7 {
        '7'
    } else if d == 8 {
        '8'
    } else {
        '9'
    }
}

/// The decimal rendering of a non-negative integer, most significant
/// digit first.
pub open spec fn spec_u64_digits(n: int) -> Seq<char>
    decreases n,
{
    if n <= 9 {
        seq![spec_digit(n)]
    } else {
        spec_u64_digits(n / 10).push(spec_digit(n % 10))
    }
}

/// `n` copies of one character.
pub open spec fn spec_repeat(c: char, n: int) -> Seq<char>
    decreases n,
{
    if n <= 0 {
        Seq::empty()
    } else {
        spec_repeat(c, n - 1).push(c)
    }
}

pub open spec fn spec_max(a: int, b: int) -> int {
    if a >= b {
        a
    } else {
        b
    }
}

/// Left-align into a column of width `w` (text wider than the column is
/// kept whole).
pub open spec fn spec_pad_right(s: Seq<char>, w: int) -> Seq<char> {
    if s.len() >= w {
        s
    } else {
        s + spec_repeat(' ', w - s.len())
    }
}

/// Right-align into a column of width `w`.
pub open spec fn spec_pad_left(s: Seq<char>, w: int) -> Seq<char> {
    if s.len() >= w {
        s
    } else {
        spec_repeat(' ', w - s.len()) + s
    }
}

/// One aligned `label : value` report line.
pub open spec fn spec_row(label: Seq<char>, value: Seq<char>, lw: int, vw: int) -> Seq<char> {
    spec_pad_right(label, lw) + " : "@ + spec_pad_left(value, vw) + "\n"@
}

/// The decimal rendering of one value, as an executable string.
pub fn u64_to_string(n: u64) -> (r: String)
    ensures
        r@ == spec_u64_digits(n as int),
    decreases n,
{
    if n <= 9 {
        digit_str(n)
    } else {
        let r = u64_to_string(n / 10);
        r.concat(digit_str(n % 10).as_str())
    }
}

/// The one-character string of a digit.
fn digit_str(d: u64) -> (r: String)
    requires
        d <= 9,
    ensures
        r@ == seq![spec_digit(d as int)],
        r@.len() == 1,
{
    let digits = "0123456789";
    proof {
        reveal_strlit("0123456789");
        assert(digits.is_ascii());
    }
    let s = digits.substring_ascii(d as usize, d as usize + 1);
    proof {
        assert(s@ =~= seq![spec_digit(d as int)]);
    }
    String::from_str(s)
}

/// `n` copies of the single character in `part`.
fn repeat_str(part: &str, n: usize) -> (r: String)
    requires
        part@.len() == 1,
    ensures
        r@ == spec_repeat(part@[0], n as int),
{
    let mut r = String::new();
    let mut i: usize = 0;
    while i < n
        invariant
            i <= n,
            part@.len() == 1,
            r@ == spec_repeat(part@[0], i as int),
        decreases n - i,
    {
        r.append(part);
        proof {
            assert(r@ =~= spec_repeat(part@[0], i as int + 1));
        }
        i = i + 1;
    }
    r
}

/// Left-align `s` into a column of width `w`.
fn pad_right(s: &str, w: usize) -> (r: String)
    ensures
        r@ == spec_pad_right(s@, w as int),
{
    let len = s.unicode_len();
    if len >= w {
        s.to_owned()
    } else {
        proof {
            reveal_strlit(" ");
        }
        let r = String::from_str(s);
        r.concat(repeat_str(" ", w - len).as_str())
    }
}

/// Right-align `s` into a column of width `w`.
fn pad_left(s: &str, w: usize) -> (r: String)
    ensures
        r@ == spec_pad_left(s@, w as int),
{
    let len = s.unicode_len();
    if len >= w {
        s.to_owned()
    } else {
        proof {
            reveal_strlit(" ");
        }
        let r = repeat_str(" ", w - len);
        r.concat(s)
    }
}

/// Build one aligned `label : value` line.
fn render_row(label: &str, value: &str, lw: usize, vw: usize) -> (r: String)
    ensures
        r@ == spec_row(label@, value@, lw as int, vw as int),
{
    let mut r = pad_right(label, lw);
    r.append(" : ");
    r.append(pad_left(value, vw).as_str());
    r.append("\n");
    r
}

/// The larger of two column widths.
fn max_width(a: usize, b: usize) -> (r: usize)
    ensures
        r == spec_max(a as int, b as int),
{
    if a >= b {
        a
    } else {
        b
    }
}

/// Ten to the `k`.
spec fn pow10(k: nat) -> int
    decreases k,
{
    if k == 0 {
        1
    } else {
        10 * pow10((k - 1) as nat)
    }
}

proof fn lemma_digits_len_pow(n: int, k: nat)
    requires
        k >= 1,
        0 <= n < pow10(k),
    ensures
        spec_u64_digits(n).len() <= k,
    decreases k,
{
    if n > 9 {
        reveal_with_fuel(pow10, 2);
        assert(pow10(k) == 10 * pow10((k - 1) as nat));
        assert(pow10(1) == 10);
        assert(k >= 2) by {
            if k == 1 {
                assert(n < 10);
            }
        }
        assert(n / 10 < pow10((k - 1) as nat)) by (nonlinear_arith)
            requires
                n < 10 * pow10((k - 1) as nat),
                n >= 0,
        ;
        lemma_digits_len_pow(n / 10, (k - 1) as nat);
    }
}

/// A 64-bit value never needs more than twenty digits.
pub proof fn lemma_u64_digits_len(n: int)
    requires
        0 <= n <= u64::MAX,
    ensures
        1 <= spec_u64_digits(n).len() <= 20,
{
    reveal_with_fuel(pow10, 21);
    assert(pow10(20) == 100000000000000000000int);
    lemma_digits_len_pow(n, 20);
}

/// The extension table's ordering: counts never increase along the rows.
pub open spec fn sorted_desc(h: Seq<(Seq<char>, int)>) -> bool {
    forall|a: int, b: int| 0 <= a <= b < h.len() ==> (#[trigger] h[a]).1 >= (#[trigger] h[b]).1
}

/// Insert one row behind every row whose count is at least as large, so
/// that equal counts keep their relative order.
pub open spec fn spec_insert_desc(h: Seq<(Seq<char>, int)>, x: (Seq<char>, int)) -> Seq<
    (Seq<char>, int),
>
    decreases h.len(),
{
    if h.len() == 0 {
        seq![x]
    } else if h.first().1 >= x.1 {
        seq![h.first()] + spec_insert_desc(h.drop_first(), x)
    } else {
        seq![x] + h
    }
}

/// Stable insertion sort of the histogram by non-increasing count.
pub open spec fn spec_sort_desc(h: Seq<(Seq<char>, int)>) -> Seq<(Seq<char>, int)>
    decreases h.len(),
{
    if h.len() == 0 {
        h
    } else {
        spec_insert_desc(spec_sort_desc(h.drop_last()), h.last())
    }
}

/// Where the prefix is at least `x` and the next row is below it, the
/// insertion lands exactly there.
proof fn lemma_insert_desc_shape(h: Seq<(Seq<char>, int)>, x: (Seq<char>, int), j: int)
    requires
        0 <= j <= h.len(),
        forall|k: int| 0 <= k < j ==> (#[trigger] h[k]).1 >= x.1,
        j == h.len() || h[j].1 < x.1,
    ensures
        spec_insert_desc(h, x) == h.subrange(0, j).push(x) + h.subrange(j, h.len() as int),
    decreases h.len(),
{
    if h.len() == 0 {
        assert(spec_insert_desc(h, x) =~= h.subrange(0, j).push(x) + h.subrange(
            j,
            h.len() as int,
        ));
    } else if h.first().1 >= x.1 {
        assert(j >= 1) by {
            if j == 0 {
                assert(h[0].1 < x.1);
            }
        }
        assert(forall|k: int|
            0 <= k < j - 1 ==> (#[trigger] h.drop_first()[k]).1 == h[k + 1].1);
        lemma_insert_desc_shape(h.drop_first(), x, j - 1);
        assert(spec_insert_desc(h, x) =~= h.subrange(0, j).push(x) + h.subrange(
            j,
            h.len() as int,
        ));
    } else {
        assert(j == 0) by {
            if j > 0 {
                assert(h[0].1 >= x.1);
            }
        }
        assert(spec_insert_desc(h, x) =~= h.subrange(0, j).push(x) + h.subrange(
            j,
            h.len() as int,
        ));
    }
}

proof fn lemma_insert_desc_len(h: Seq<(Seq<char>, int)>, x: (Seq<char>, int))
    ensures
        spec_insert_desc(h, x).len() == h.len() + 1,
    decreases h.len(),
{
    if h.len() > 0 && h.first().1 >= x.1 {
        lemma_insert_desc_len(h.drop_first(), x);
    }
}

/// Every count in the inserted row list stays under a shared bound.
proof fn lemma_insert_desc_le(h: Seq<(Seq<char>, int)>, x: (Seq<char>, int), b: int)
    requires
        forall|k: int| 0 <= k < h.len() ==> (#[trigger] h[k]).1 <= b,
        x.1 <= b,
    ensures
        forall|k: int|
            0 <= k < spec_insert_desc(h, x).len() ==> (#[trigger] spec_insert_desc(h, x)[k]).1
                <= b,
    decreases h.len(),
{
    if h.len() > 0 && h.first().1 >= x.1 {
        assert(forall|k: int| 0 <= k < h.drop_first().len() ==> (#[trigger] h.drop_first()[k]).1 <= b);
        lemma_insert_desc_le(h.drop_first(), x, b);
        assert(forall|k: int|
            1 <= k < spec_insert_desc(h, x).len() ==> spec_insert_desc(h, x)[k]
                == spec_insert_desc(h.drop_first(), x)[k - 1]);
    }
}

proof fn lemma_insert_desc_sorted(h: Seq<(Seq<char>, int)>, x: (Seq<char>, int))
    requires
        sorted_desc(h),
    ensures
        sorted_desc(spec_insert_desc(h, x)),
    decreases h.len(),
{
    let r = spec_insert_desc(h, x);
    if h.len() == 0 {
    } else if h.first().1 >= x.1 {
        let rest = h.drop_first();
        assert(forall|k: int| 0 <= k < rest.len() ==> (#[trigger] rest[k]).1 == h[k + 1].1);
        assert(sorted_desc(rest));
        lemma_insert_desc_sorted(rest, x);
        lemma_insert_desc_le(rest, x, h.first().1);
        let ins = spec_insert_desc(rest, x);
        assert(forall|k: int| 1 <= k < r.len() ==> (#[trigger] r[k]) == ins[k - 1]);
        assert forall|a: int, b: int| 0 <= a <= b < r.len() implies r[a].1 >= r[b].1 by {
            if a == 0 {
                if b > 0 {
                    assert(r[b] == ins[b - 1]);
                    assert(ins[b - 1].1 <= h.first().1);
                }
            } else {
                assert(r[a] == ins[a - 1]);
                assert(r[b] == ins[b - 1]);
            }
        }
    } else {
        assert forall|a: int, b: int| 0 <= a <= b < r.len() implies r[a].1 >= r[b].1 by {
            if a == 0 && b > 0 {
                assert(r[b] == h[b - 1]);
                assert(h[0].1 >= h[b - 1].1);
            }
            if a > 0 {
                assert(r[a] == h[a - 1]);
                assert(r[b] == h[b - 1]);
            }
        }
    }
}

/// The sorted histogram is as long as the input and ordered by
/// non-increasing count.
pub proof fn lemma_sort_desc_sorted(h: Seq<(Seq<char>, int)>)
    ensures
        sorted_desc(spec_sort_desc(h)),
        spec_sort_desc(h).len() == h.len(),
    decreases h.len(),
{
    if h.len() > 0 {
        lemma_sort_desc_sorted(h.drop_last());
        lemma_insert_desc_sorted(spec_sort_desc(h.drop_last()), h.last());
        lemma_insert_desc_len(spec_sort_desc(h.drop_last()), h.last());
    }
}

/// Sorting keeps the keys' length bound.
proof fn lemma_insert_desc_keys_fit(h: Seq<(Seq<char>, int)>, x: (Seq<char>, int), b: int)
    requires
        crate::scan::keys_fit(h, b),
        x.0.len() <= b,
    ensures
        crate::scan::keys_fit(spec_insert_desc(h, x), b),
    decreases h.len(),
{
    if h.len() > 0 && h.first().1 >= x.1 {
        assert(crate::scan::keys_fit(h.drop_first(), b)) by {
            assert(forall|k: int|
                0 <= k < h.drop_first().len() ==> (#[trigger] h.drop_first()[k]).0
                    == h[k + 1].0);
        }
        lemma_insert_desc_keys_fit(h.drop_first(), x, b);
        assert(forall|k: int|
            1 <= k < spec_insert_desc(h, x).len() ==> (#[trigger] spec_insert_desc(h, x)[k])
                == spec_insert_desc(h.drop_first(), x)[k - 1]);
    }
}

pub proof fn lemma_sort_desc_keys_fit(h: Seq<(Seq<char>, int)>, b: int)
    requires
        crate::scan::keys_fit(h, b),
    ensures
        crate::scan::keys_fit(spec_sort_desc(h), b),
    decreases h.len(),
{
    if h.len() > 0 {
        assert(crate::scan::keys_fit(h.drop_last(), b));
        lemma_sort_desc_keys_fit(h.drop_last(), b);
        lemma_insert_desc_keys_fit(spec_sort_desc(h.drop_last()), h.last(), b);
    }
}

/// Sort the histogram buckets by non-increasing count, stably.
pub fn sort_by_count_desc(src: &Vec<ExtCount>) -> (out: Vec<ExtCount>)
    ensures
        hist_view(out@) == spec_sort_desc(hist_view(src@)),
{
    let mut out: Vec<ExtCount> = Vec::new();
    let n = src.len();
    let mut i: usize = 0;
    while i < n
        invariant
            i <= n,
            n == src@.len(),
            hist_view(out@) == spec_sort_desc(hist_view(src@).take(i as int)),
            out@.len() == i,
        decreases n - i,
    {
        let x_count = src[i].count;
        let mut j: usize = 0;
        while j < out.len() && out[j].count >= x_count
            invariant
                j <= out@.len(),
                forall|k: int| 0 <= k < j ==> (#[trigger] out@[k]).count >= x_count,
            decreases out@.len() - j,
        {
            j = j + 1;
        }
        let ghost hv = hist_view(out@);
        let ghost xv = (src@[i as int].name@, src@[i as int].count as int);
        proof {
            assert(forall|k: int| 0 <= k < j ==> (#[trigger] hv[k]).1 >= xv.1);
            assert(j == hv.len() || hv[j as int].1 < xv.1);
            lemma_insert_desc_shape(hv, xv, j as int);
        }
        out.insert(j, ExtCount { name: src[i].name.clone(), count: x_count });
        proof {
            assert(hist_view(out@) =~= hv.subrange(0, j as int).push(xv) + hv.subrange(
                j as int,
                hv.len() as int,
            ));
            let pre = hist_view(src@).take(i as int);
            let post = hist_view(src@).take(i as int + 1);
            assert(post.drop_last() =~= pre);
            assert(post.last() == xv);
            assert(hist_view(out@) == spec_sort_desc(post));
        }
        i = i + 1;
    }
    proof {
        assert(hist_view(src@).take(n as int) =~= hist_view(src@));
    }
    out
}

/// What the extension table shows: the sorted histogram, cut to the
/// display limit.
pub open spec fn spec_display_rows(h: Seq<(Seq<char>, int)>, limit: u64) -> Seq<
    (Seq<char>, int),
> {
    let s = spec_sort_desc(h);
    if s.len() <= limit {
        s
    } else {
        s.take(limit as int)
    }
}

/// The extension table never shows more than the display limit, in
/// non-increasing count order.
pub proof fn lemma_display_rows_capped_and_sorted(h: Seq<(Seq<char>, int)>, limit: u64)
    ensures
        spec_display_rows(h, limit).len() <= limit,
        sorted_desc(spec_display_rows(h, limit)),
{
    lemma_sort_desc_sorted(h);
}

/// Widest key among the displayed rows.
pub open spec fn spec_max_name_len(rows: Seq<(Seq<char>, int)>) -> int
    decreases rows.len(),
{
    if rows.len() == 0 {
        0
    } else {
        spec_max(spec_max_name_len(rows.drop_last()), rows.last().0.len() as int)
    }
}

/// Widest rendered count among the displayed rows.
pub open spec fn spec_max_count_len(rows: Seq<(Seq<char>, int)>) -> int
    decreases rows.len(),
{
    if rows.len() == 0 {
        0
    } else {
        spec_max(spec_max_count_len(rows.drop_last()), spec_u64_digits(rows.last().1).len() as int)
    }
}

/// The table body: one aligned line per displayed row.
pub open spec fn spec_table_rows(rows: Seq<(Seq<char>, int)>, ew: int, cw: int) -> Seq<char>
    decreases rows.len(),
{
    if rows.len() == 0 {
        Seq::empty()
    } else {
        spec_table_rows(rows.drop_last(), ew, cw) + spec_row(
            rows.last().0,
            spec_u64_digits(rows.last().1),
            ew,
            cw,
        )
    }
}

/// The whole extension table, with its title, rules and rows.
pub open spec fn spec_table(rows: Seq<(Seq<char>, int)>) -> Seq<char> {
    let ew = spec_max_name_len(rows);
    let cw = spec_max_count_len(rows);
    let w = ew + 3 + cw;
    "\nTop Extensions\n"@ + spec_repeat('-', w) + "\n"@ + spec_table_rows(rows, ew, cw)
        + spec_repeat('-', w) + "\n"@
}

/// The header block: title, rule, the four fixed rows, rule.
pub open spec fn spec_header(m: SummaryModel) -> Seq<char> {
    let v_files = spec_u64_digits(m.file_count);
    let v_dirs = spec_u64_digits(m.directory_count);
    let v_size = spec_u64_digits(m.total_bytes) + " bytes"@;
    let v_old = spec_u64_digits(m.old_files);
    let lw = spec_max(
        spec_max("Files"@.len() as int, "Directories"@.len() as int),
        spec_max("Size"@.len() as int, "Old files"@.len() as int),
    );
    let vw = spec_max(
        spec_max(v_files.len() as int, v_dirs.len() as int),
        spec_max(v_size.len() as int, v_old.len() as int),
    );
    let w = lw + 3 + vw;
    "Scan Summary\n"@ + spec_repeat('-', w) + "\n"@ + spec_row("Files"@, v_files, lw, vw)
        + spec_row("Directories"@, v_dirs, lw, vw) + spec_row("Size"@, v_size, lw, vw) + spec_row(
        "Old files"@,
        v_old,
        lw,
        vw,
    ) + spec_repeat('-', w) + "\n"@
}

/// Everything before the elapsed-time trailer.
pub open spec fn spec_report_body(m: SummaryModel, limit: u64) -> Seq<char> {
    spec_header(m) + spec_table(spec_display_rows(m.extensions, limit))
}

/// The elapsed-time trailer.
pub open spec fn spec_trailer(elapsed_ms: u64) -> Seq<char> {
    "Scan took "@ + spec_u64_digits(elapsed_ms as int) + " ms.\n"@
}

/// The full report.
pub open spec fn spec_report(m: SummaryModel, limit: u64, elapsed_ms: u64) -> Seq<char> {
    spec_report_body(m, limit) + spec_trailer(elapsed_ms)
}

impl ScanSummary {
    /// Format the finished summary without mutating it: the fixed header
    /// block, the count-sorted extension table cut to `ext_display_limit`
    /// rows, and the elapsed-time trailer.
    pub fn render_summary(&self, ext_display_limit: u64, elapsed_ms: u64) -> (r: String)
        requires
            crate::scan::keys_fit(self@.extensions, usize::MAX as int - 23),
        ensures
            r@ == spec_report(self@, ext_display_limit, elapsed_ms),
    {
        proof {
            reveal_strlit("Files");
            reveal_strlit("Directories");
            reveal_strlit("Size");
            reveal_strlit("Old files");
            reveal_strlit(" bytes");
            reveal_strlit("-");
            lemma_u64_digits_len(self.file_count as int);
            lemma_u64_digits_len(self.directory_count as int);
            lemma_u64_digits_len(self.total_bytes as int);
            lemma_u64_digits_len(self.old_files as int);
        }
        let v_files = u64_to_string(self.file_count);
        let v_dirs = u64_to_string(self.directory_count);
        let v_size = u64_to_string(self.total_bytes).concat(" bytes");
        let v_old = u64_to_string(self.old_files);
        let lw = max_width(
            max_width("Files".unicode_len(), "Directories".unicode_len()),
            max_width("Size".unicode_len(), "Old files".unicode_len()),
        );
        let vw = max_width(
            max_width(v_files.as_str().unicode_len(), v_dirs.as_str().unicode_len()),
            max_width(v_size.as_str().unicode_len(), v_old.as_str().unicode_len()),
        );
        let w = lw + 3 + vw;
        let dash = repeat_str("-", w);
        let mut header = String::from_str("Scan Summary\n");
        header.append(dash.as_str());
        header.append("\n");
        header.append(render_row("Files", v_files.as_str(), lw, vw).as_str());
        header.append(render_row("Directories", v_dirs.as_str(), lw, vw).as_str());
        header.append(render_row("Size", v_size.as_str(), lw, vw).as_str());
        header.append(render_row("Old files", v_old.as_str(), lw, vw).as_str());
        header.append(dash.as_str());
        header.append("\n");
        proof {
            assert(header@ == spec_header(self@));
        }

        let ghost bound = usize::MAX as int - 23;
        proof {
            lemma_sort_desc_keys_fit(hist_view(self.extensions@), bound);
        }
        let mut shown = sort_by_count_desc(&self.extensions);
        if (shown.len() as u64) > ext_display_limit {
            shown.truncate(ext_display_limit as usize);
        }
        let ghost rows = spec_display_rows(self@.extensions, ext_display_limit);
        proof {
            assert(hist_view(shown@) =~= rows);
            assert(crate::scan::keys_fit(rows, bound));
        }

        let mut ew: usize = 0;
        let mut cw: usize = 0;
        let shown_len = shown.len();
        let mut k: usize = 0;
        while k < shown_len
            invariant
                k <= shown_len,
                shown_len == shown@.len(),
                rows == hist_view(shown@),
                crate::scan::keys_fit(rows, bound),
                ew as int == spec_max_name_len(rows.take(k as int)),
                cw as int == spec_max_count_len(rows.take(k as int)),
                ew <= bound,
                cw <= 20,
            decreases shown_len - k,
        {
            proof {
                assert(rows.take(k as int + 1).drop_last() =~= rows.take(k as int));
                assert(rows.take(k as int + 1).last() == rows[k as int]);
                lemma_u64_digits_len(shown@[k as int].count as int);
            }
            ew = max_width(ew, shown[k].name.as_str().unicode_len());
            cw = max_width(cw, u64_to_string(shown[k].count).as_str().unicode_len());
            k = k + 1;
        }
        proof {
            assert(rows.take(rows.len() as int) =~= rows);
        }
        let tw = ew + 3 + cw;
        let tdash = repeat_str("-", tw);

        let mut body = String::new();
        let mut k: usize = 0;
        while k < shown_len
            invariant
                k <= shown_len,
                shown_len == shown@.len(),
                rows == hist_view(shown@),
                body@ == spec_table_rows(rows.take(k as int), ew as int, cw as int),
            decreases shown_len - k,
        {
            proof {
                assert(rows.take(k as int + 1).drop_last() =~= rows.take(k as int));
                assert(rows.take(k as int + 1).last() == rows[k as int]);
            }
            body.append(
                render_row(
                    shown[k].name.as_str(),
                    u64_to_string(shown[k].count).as_str(),
                    ew,
                    cw,
                ).as_str(),
            );
            k = k + 1;
        }
        proof {
            assert(rows.take(rows.len() as int) =~= rows);
        }

        let mut table = String::from_str("\nTop Extensions\n");
        table.append(tdash.as_str());
        table.append("\n");
        table.append(body.as_str());
        table.append(tdash.as_str());
        table.append("\n");
        proof {
            assert(table@ == spec_table(rows));
        }

        let mut trailer = String::from_str("Scan took ");
        trailer.append(u64_to_string(elapsed_ms).as_str());
        trailer.append(" ms.\n");

        let mut r = header;
        r.append(table.as_str());
        r.append(trailer.as_str());
        r
    }
}

/// Two renderings of one summary differ only in the elapsed-time
/// trailer: they agree on everything before it.
pub proof fn lemma_report_elapsed_affects_only_trailer(
    m: SummaryModel,
    limit: u64,
    e1: u64,
    e2: u64,
)
    ensures
        spec_report(m, limit, e1).take(spec_report_body(m, limit).len() as int) == spec_report(
            m,
            limit,
            e2,
        ).take(spec_report_body(m, limit).len() as int),
{
    let body = spec_report_body(m, limit);
    assert(spec_report(m, limit, e1).take(body.len() as int) =~= body);
    assert(spec_report(m, limit, e2).take(body.len() as int) =~= body);
}

} // verus!
