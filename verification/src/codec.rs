//! The textual graph format: one edge per line as
//! `<row label><delim><column label><delim><weight>`, with an optional
//! leading comment line starting with `#`. Weights are unsigned decimal
//! numbers. Rendering and parsing are verified against each other at the
//! level of decimal numbers and of single lines.

use vstd::prelude::*;
use crate::errors::ParseError;
use crate::graph::WeightedBiAdjacency;
use crate::{MAX_DIM, MAX_WEIGHT};

verus! {

/// Is the byte a decimal digit?
pub open spec fn is_digit(b: u8) -> bool {
    48 <= b <= 57
}

/// Every byte of the string is a decimal digit.
pub open spec fn all_digits(s: Seq<u8>) -> bool {
    forall|k: int| 0 <= k < s.len() ==> is_digit(s[k])
}

/// The decimal rendering of a non-negative number, most significant digit
/// first.
pub open spec fn dec(w: int) -> Seq<u8>
    decreases w,
{
    if w < 10 {
        seq![(48 + (if w >= 0 { w } else { 0 })) as u8]
    } else {
        dec(w / 10).push((48 + w % 10) as u8)
    }
}

/// The numeric value of a digit string.
pub open spec fn str_val(s: Seq<u8>) -> int
    decreases s.len(),
{
    if s.len() == 0 {
        0
    } else {
        10 * str_val(s.drop_last()) + (s.last() - 48)
    }
}

/// Rendering a number yields a non-empty digit string whose value is the
/// number again: the decimal round trip.
pub proof fn lemma_weight_round_trip(w: int)
    requires
        w >= 0,
    ensures
        dec(w).len() >= 1,
        all_digits(dec(w)),
        str_val(dec(w)) == w,
    decreases w,
{
    if w < 10 {
        assert(dec(w) =~= seq![(48 + w) as u8]);
        assert(dec(w).drop_last() =~= Seq::<u8>::empty());
        assert((48 + w) as u8 == 48 + w);
        assert(str_val(dec(w)) == 10 * str_val(Seq::<u8>::empty()) + ((48 + w) as u8 - 48));
    } else {
        lemma_weight_round_trip(w / 10);
        vstd::arithmetic::div_mod::lemma_fundamental_div_mod(w, 10);
        let d = (48 + w % 10) as u8;
        assert(dec(w) == dec(w / 10).push(d));
        assert(dec(w).drop_last() =~= dec(w / 10));
        assert(dec(w).last() == d);
        assert forall|k: int| 0 <= k < dec(w).len() implies is_digit(dec(w)[k]) by {
            if k < dec(w).len() - 1 {
                assert(dec(w)[k] == dec(w / 10)[k]);
            }
        }
    }
}

/// A digit string has a non-negative value.
proof fn lemma_str_val_nonneg(s: Seq<u8>)
    requires
        all_digits(s),
    ensures
        str_val(s) >= 0,
    decreases s.len(),
{
    if s.len() > 0 {
        assert(all_digits(s.drop_last()));
        lemma_str_val_nonneg(s.drop_last());
    }
}

/// The value of a prefix of a digit string never exceeds the whole value.
proof fn lemma_str_val_take(s: Seq<u8>, j: int)
    requires
        all_digits(s),
        0 <= j <= s.len(),
    ensures
        str_val(s.take(j)) <= str_val(s),
    decreases s.len(),
{
    if j < s.len() {
        assert(all_digits(s.drop_last()));
        assert(s.take(j) =~= s.drop_last().take(j));
        lemma_str_val_take(s.drop_last(), j);
        lemma_str_val_nonneg(s.drop_last());
    } else {
        assert(s.take(j) =~= s);
    }
}

/// Render a number as decimal digits.
pub fn render_u64(w: u64) -> (r: Vec<u8>)
    ensures
        r@ == dec(w as int),
{
    if w < 10 {
        let mut out: Vec<u8> = Vec::new();
        out.push(48 + (w as u8));
        proof {
            assert(out@ =~= dec(w as int));
        }
        return out;
    }
    let mut buf: Vec<u8> = Vec::new();
    let mut x = w;
    while x > 0
        invariant
            x > 0 ==> dec(w as int) == dec(x as int) + buf@.reverse(),
            x == 0 ==> dec(w as int) == buf@.reverse(),
        decreases x,
    {
        let d: u8 = 48 + ((x % 10) as u8);
        let ghost old_buf = buf@;
        buf.push(d);
        proof {
            assert(buf@.reverse() =~= seq![d] + old_buf.reverse());
            if x < 10 {
                assert(dec(x as int) =~= seq![d]);
                assert(seq![d] + old_buf.reverse() =~= buf@.reverse());
            } else {
                assert(dec(x as int) == dec(x as int / 10).push(d));
                assert(dec(x as int / 10).push(d) + old_buf.reverse() =~= dec(x as int / 10) + (
                seq![d] + old_buf.reverse()));
            }
        }
        x = x / 10;
    }
    let mut out: Vec<u8> = Vec::new();
    let mut k: usize = buf.len();
    while k > 0
        invariant
            k <= buf@.len(),
            out@.len() == buf@.len() - k,
            forall|t: int| 0 <= t < out@.len() ==> out@[t] == buf@[buf@.len() - 1 - t],
        decreases k,
    {
        k -= 1;
        out.push(buf[k]);
    }
    proof {
        assert(out@ =~= buf@.reverse());
    }
    out
}

/// Parse an unsigned decimal number. Returns the value exactly when the
/// input is a non-empty digit string whose value fits the result type.
pub fn parse_u64(s: &[u8]) -> (r: Option<u64>)
    ensures
        r matches Some(v) ==> s@.len() > 0 && all_digits(s@) && v == str_val(s@),
        (s@.len() > 0 && all_digits(s@) && str_val(s@) <= u64::MAX) ==> r is Some,
{
    if s.len() == 0 {
        return None;
    }
    let mut acc: u64 = 0;
    let mut k: usize = 0;
    while k < s.len()
        invariant
            k <= s@.len(),
            acc == str_val(s@.take(k as int)),
            forall|t: int| 0 <= t < k ==> is_digit(s@[t]),
        decreases s@.len() - k,
    {
        let b = s[k];
        if b < 48 || b > 57 {
            return None;
        }
        let d = (b - 48) as u64;
        proof {
            assert(s@.take(k as int + 1) =~= s@.take(k as int).push(s@[k as int]));
            assert(s@.take(k as int + 1).drop_last() =~= s@.take(k as int));
            assert(str_val(s@.take(k as int + 1)) == 10 * acc + d);
        }
        if acc > (u64::MAX - d) / 10 {
            proof {
                vstd::arithmetic::div_mod::lemma_fundamental_div_mod(
                    (u64::MAX - d) as int, 10);
                if all_digits(s@) {
                    lemma_str_val_take(s@, k as int + 1);
                }
            }
            return None;
        }
        proof {
            vstd::arithmetic::div_mod::lemma_fundamental_div_mod((u64::MAX - d) as int, 10);
        }
        acc = acc * 10 + d;
        k += 1;
    }
    proof {
        assert(s@.take(s@.len() as int) =~= s@);
    }
    Some(acc)
}

/// The first position of `c` in `s` at or after `from`, or -1.
pub open spec fn find_from(s: Seq<u8>, c: u8, from: int) -> int
    decreases s.len() - from,
{
    if from < 0 || from >= s.len() {
        -1int
    } else if s[from] == c {
        from
    } else {
        find_from(s, c, from + 1)
    }
}

/// Find the first occurrence of a byte at or after `from`.
pub fn find_byte(s: &[u8], c: u8, from: usize) -> (r: Option<usize>)
    requires
        from <= s@.len(),
    ensures
        r matches Some(i) ==> from <= i < s@.len() && find_from(s@, c, from as int) == i && s@[i
            as int] == c,
        r is None ==> find_from(s@, c, from as int) == -1,
{
    let mut k = from;
    while k < s.len()
        invariant
            from <= k <= s@.len(),
            find_from(s@, c, from as int) == find_from(s@, c, k as int),
        decreases s@.len() - k,
    {
        if s[k] == c {
            return Some(k);
        }
        k += 1;
    }
    None
}

/// Copy a byte range of a slice.
pub fn copy_range(s: &[u8], a: usize, b: usize) -> (r: Vec<u8>)
    requires
        a <= b <= s@.len(),
    ensures
        r@ == s@.subrange(a as int, b as int),
{
    let mut r: Vec<u8> = Vec::new();
    let mut k = a;
    while k < b
        invariant
            a <= k <= b <= s@.len(),
            r@.len() == k - a,
            forall|t: int| 0 <= t < r@.len() ==> r@[t] == s@[a + t],
        decreases b - k,
    {
        r.push(s[k]);
        k += 1;
    }
    proof {
        assert(r@ =~= s@.subrange(a as int, b as int));
    }
    r
}

/// One rendered edge line, without its terminating newline.
pub open spec fn line_of(a: Seq<u8>, b: Seq<u8>, w: int, d: u8) -> Seq<u8> {
    a + seq![d] + b + seq![d] + dec(w)
}

/// How a line splits at its first two delimiters.
pub open spec fn spec_split_line(s: Seq<u8>, d: u8) -> Option<(Seq<u8>, Seq<u8>, Seq<u8>)> {
    let p1 = find_from(s, d, 0);
    if p1 < 0 {
        None
    } else {
        let p2 = find_from(s, d, p1 + 1);
        if p2 < 0 {
            None
        } else {
            Some((s.subrange(0, p1), s.subrange(p1 + 1, p2), s.subrange(p2 + 1, s.len() as int)))
        }
    }
}

/// Parse one edge line into its two labels and its weight.
pub fn parse_line(s: &[u8], d: u8) -> (r: Option<(Vec<u8>, Vec<u8>, u64)>)
    ensures
        r matches Some(t) ==> (spec_split_line(s@, d) matches Some(f) && t.0@ == f.0 && t.1@
            == f.1 && f.2.len() > 0 && all_digits(f.2) && t.2 == str_val(f.2)),
        (spec_split_line(s@, d) matches Some(f) && f.2.len() > 0 && all_digits(f.2) && str_val(
            f.2,
        ) <= u64::MAX) ==> r is Some,
{
    let p1 = match find_byte(s, d, 0) {
        Some(i) => i,
        None => {
            return None;
        },
    };
    let sl = s.len();
    proof {
        assert(p1 < sl);
    }
    let p2 = match find_byte(s, d, p1 + 1) {
        Some(i) => i,
        None => {
            return None;
        },
    };
    proof {
        assert(p2 < sl);
    }
    let num = copy_range(s, p2 + 1, sl);
    let w = match parse_u64(num.as_slice()) {
        Some(w) => w,
        None => {
            return None;
        },
    };
    let la = copy_range(s, 0, p1);
    let lb = copy_range(s, p1 + 1, p2);
    Some((la, lb, w))
}

/// A delimiter-free sequence holds no occurrence of the delimiter.
pub open spec fn delim_free(s: Seq<u8>, d: u8) -> bool {
    forall|k: int| 0 <= k < s.len() ==> s[k] != d
}

proof fn lemma_find_in_segment(s: Seq<u8>, d: u8, i: int, j: int)
    requires
        0 <= i <= j < s.len(),
        forall|t: int| i <= t < j ==> s[t] != d,
        s[j] == d,
    ensures
        find_from(s, d, i) == j,
    decreases j - i,
{
    if i < j {
        lemma_find_in_segment(s, d, i + 1, j);
    }
}

/// Splitting a rendered line recovers the labels and the digits exactly,
/// provided the labels are free of the delimiter and the delimiter is not
/// itself a digit: the line-level round trip.
pub proof fn lemma_line_round_trip(a: Seq<u8>, b: Seq<u8>, w: int, d: u8)
    requires
        delim_free(a, d),
        delim_free(b, d),
        !is_digit(d),
        w >= 0,
    ensures
        spec_split_line(line_of(a, b, w, d), d) == Some((a, b, dec(w))),
        all_digits(dec(w)),
        dec(w).len() > 0,
        str_val(dec(w)) == w,
{
    lemma_weight_round_trip(w);
    let s = line_of(a, b, w, d);
    let al = a.len() as int;
    let bl = b.len() as int;
    assert(s.len() == al + 1 + bl + 1 + dec(w).len());
    assert forall|t: int| 0 <= t < al implies s[t] == a[t] by {}
    assert(s[al] == d);
    assert forall|t: int| al + 1 <= t < al + 1 + bl implies s[t] == b[t - al - 1] by {}
    assert(s[al + 1 + bl] == d);
    assert forall|t: int| al + 1 + bl + 1 <= t < s.len() implies s[t] == dec(w)[t - (al + 1 + bl
        + 1)] by {}
    lemma_find_in_segment(s, d, 0, al);
    assert(find_from(s, d, 0) == al);
    lemma_find_in_segment(s, d, al + 1, al + 1 + bl);
    assert(find_from(s, d, al + 1) == al + 1 + bl);
    assert(s.subrange(0, al) =~= a);
    assert(s.subrange(al + 1, al + 1 + bl) =~= b);
    assert(s.subrange(al + 1 + bl + 1, s.len() as int) =~= dec(w));
}

/// Are two byte strings equal?
pub fn eq_bytes(a: &Vec<u8>, b: &Vec<u8>) -> (r: bool)
    ensures
        r == (a@ == b@),
{
    if a.len() != b.len() {
        proof {
            assert(a@ != b@);
        }
        return false;
    }
    let mut k: usize = 0;
    while k < a.len()
        invariant
            k <= a@.len(),
            a@.len() == b@.len(),
            forall|t: int| 0 <= t < k ==> a@[t] == b@[t],
        decreases a@.len() - k,
    {
        if a[k] != b[k] {
            proof {
                assert(a@ != b@);
            }
            return false;
        }
        k += 1;
    }
    proof {
        assert(a@ =~= b@);
    }
    true
}

/// The position of a label in a label table, if present.
pub fn find_label(table: &Vec<Vec<u8>>, label: &Vec<u8>) -> (r: Option<usize>)
    ensures
        r matches Some(i) ==> i < table@.len() && table@[i as int]@ == label@ && forall|t: int|
            0 <= t < i ==> table@[t]@ != label@,
        r is None ==> forall|t: int| 0 <= t < table@.len() ==> table@[t]@ != label@,
{
    let mut k: usize = 0;
    while k < table.len()
        invariant
            k <= table@.len(),
            forall|t: int| 0 <= t < k ==> table@[t]@ != label@,
        decreases table@.len() - k,
    {
        if eq_bytes(&table[k], label) {
            return Some(k);
        }
        k += 1;
    }
    None
}

/// Append a byte string to an output buffer.
fn append_bytes(out: &mut Vec<u8>, src: &Vec<u8>)
    ensures
        final (out)@ == old(out)@ + src@,
{
    let mut k: usize = 0;
    while k < src.len()
        invariant
            k <= src@.len(),
            out@ == old(out)@ + src@.take(k as int),
        decreases src@.len() - k,
    {
        let b = src[k];
        out.push(b);
        proof {
            assert(old(out)@ + src@.take(k as int + 1) =~= (old(out)@ + src@.take(
                k as int,
            )).push(src@[k as int]));
        }
        k += 1;
    }
    proof {
        assert(src@.take(src@.len() as int) =~= src@);
    }
}

/// Serialize a graph: a `#` comment line carrying the header, then one
/// line per edge, each rendered as `line_of` plus a newline, in row-major
/// order over the positive cells.
pub fn write_graph(g: &WeightedBiAdjacency, d: u8, header: &Vec<u8>) -> (r: Vec<u8>)
    requires
        g.wf(),
    ensures
        r@ == seq![35u8] + header@ + seq![10u8] + render_rows(*g, d, g.n as int),
{
    let mut out: Vec<u8> = Vec::new();
    out.push(35);
    append_bytes(&mut out, header);
    out.push(10);
    proof {
        assert(out@ =~= seq![35u8] + header@ + seq![10u8]);
    }
    let ghost head = out@;
    let mut i: usize = 0;
    while i < g.n
        invariant
            i <= g.n,
            g.wf(),
            out@ == head + render_rows(*g, d, i as int),
        decreases g.n - i,
    {
        let mut j: usize = 0;
        let ghost row_start = out@;
        while j < g.m
            invariant
                i < g.n,
                j <= g.m,
                g.wf(),
                out@ == row_start + render_row(*g, d, i as int, j as int),
            decreases g.m - j,
        {
            let w = g.get_weight(i, j);
            if w > 0 {
                let ghost before = out@;
                append_bytes(&mut out, &g.labels_a[i]);
                out.push(d);
                append_bytes(&mut out, &g.labels_b[j]);
                out.push(d);
                let digits = render_u64(w);
                append_bytes(&mut out, &digits);
                out.push(10);
                proof {
                    assert(out@ =~= before + render_cell(*g, d, i as int, j as int));
                    assert(row_start + render_row(*g, d, i as int, j as int + 1) =~= (row_start
                        + render_row(*g, d, i as int, j as int)) + render_cell(*g, d, i as int,
                        j as int));
                }
            } else {
                proof {
                    assert(render_cell(*g, d, i as int, j as int) =~= Seq::<u8>::empty());
                    assert(row_start + render_row(*g, d, i as int, j as int + 1) =~= (row_start
                        + render_row(*g, d, i as int, j as int)) + render_cell(*g, d, i as int,
                        j as int));
                }
            }
            j += 1;
        }
        proof {
            assert(head + render_rows(*g, d, i as int + 1) =~= (head + render_rows(*g, d,
                i as int)) + render_row(*g, d, i as int, g.m as int));
        }
        i += 1;
    }
    out
}

/// The rendering of one cell: an edge line when the cell carries weight,
/// nothing otherwise.
pub open spec fn render_cell(g: WeightedBiAdjacency, d: u8, i: int, j: int) -> Seq<u8> {
    if g.weight(i, j) > 0 {
        line_of(g.labels_a@[i]@, g.labels_b@[j]@, g.weight(i, j) as int, d) + seq![10u8]
    } else {
        Seq::<u8>::empty()
    }
}

/// The rendering of row `i` over the first `j` columns.
pub open spec fn render_row(g: WeightedBiAdjacency, d: u8, i: int, j: int) -> Seq<u8>
    decreases j,
{
    if j <= 0 {
        Seq::<u8>::empty()
    } else {
        render_row(g, d, i, j - 1) + render_cell(g, d, i, j - 1)
    }
}

/// The rendering of the first `i` rows.
pub open spec fn render_rows(g: WeightedBiAdjacency, d: u8, i: int) -> Seq<u8>
    decreases i,
{
    if i <= 0 {
        Seq::<u8>::empty()
    } else {
        render_rows(g, d, i - 1) + render_row(g, d, i - 1, g.m as int)
    }
}


/// The label tables and resolved edges accumulated while loading a graph.
#[verifier::ext_equal]
pub struct LoadState {
    pub la: Seq<Seq<u8>>,
    pub lb: Seq<Seq<u8>>,
    pub edges: Seq<(int, int, u64)>,
}

/// The state before any line has been read.
pub open spec fn load_start() -> LoadState {
    LoadState { la: Seq::empty(), lb: Seq::empty(), edges: Seq::empty() }
}

/// The first index of a label in a table, or -1 when absent.
pub open spec fn find_index(table: Seq<Seq<u8>>, l: Seq<u8>) -> int
    decreases table.len(),
{
    if table.len() == 0 {
        -1int
    } else if table[0] == l {
        0int
    } else {
        let r = find_index(table.drop_first(), l);
        if r < 0 {
            -1int
        } else {
            r + 1
        }
    }
}

proof fn lemma_find_index_char(table: Seq<Seq<u8>>, l: Seq<u8>)
    ensures
        find_index(table, l) < 0 ==> forall|k: int| 0 <= k < table.len() ==> table[k] != l,
        find_index(table, l) >= 0 ==> 0 <= find_index(table, l) < table.len() && table[find_index(
            table,
            l,
        )] == l && forall|k: int| 0 <= k < find_index(table, l) ==> table[k] != l,
    decreases table.len(),
{
    if table.len() > 0 && table[0] != l {
        lemma_find_index_char(table.drop_first(), l);
        let r = find_index(table.drop_first(), l);
        if r < 0 {
            assert forall|k: int| 0 <= k < table.len() implies table[k] != l by {
                if k > 0 {
                    assert(table.drop_first()[k - 1] == table[k]);
                }
            }
        } else {
            assert(table.drop_first()[r] == table[r + 1]);
            assert forall|k: int| 0 <= k < r + 1 implies table[k] != l by {
                if k > 0 {
                    assert(table.drop_first()[k - 1] == table[k]);
                }
            }
        }
    }
}

/// One parsed edge line folded into the state: each label resolves to its
/// first table index or is appended, the weight must stay under the cap,
/// and a fresh label must not push a table past the dimension cap.
pub open spec fn load_line(st: LoadState, la: Seq<u8>, lb: Seq<u8>, w: u64) -> Result<
    LoadState,
    ParseError,
> {
    if w > MAX_WEIGHT {
        Err(ParseError::WeightTooLarge)
    } else {
        let ia = find_index(st.la, la);
        if ia < 0 && st.la.len() >= MAX_DIM {
            Err(ParseError::TooManyNodes)
        } else {
            let la2 = if ia < 0 {
                st.la.push(la)
            } else {
                st.la
            };
            let ia2 = if ia < 0 {
                st.la.len() as int
            } else {
                ia
            };
            let jb = find_index(st.lb, lb);
            if jb < 0 && st.lb.len() >= MAX_DIM {
                Err(ParseError::TooManyNodes)
            } else {
                let lb2 = if jb < 0 {
                    st.lb.push(lb)
                } else {
                    st.lb
                };
                let jb2 = if jb < 0 {
                    st.lb.len() as int
                } else {
                    jb
                };
                Ok(LoadState { la: la2, lb: lb2, edges: st.edges.push((ia2, jb2, w)) })
            }
        }
    }
}

/// The loader folded over the byte stream from position `start`: lines cut
/// at newlines, comment and empty lines skipped, every other line required
/// to split into two labels and a decimal weight that fits, the labels
/// swapped when the primary axis is columns.
pub open spec fn spec_load(bytes: Seq<u8>, d: u8, split_rows: bool, start: int, st: LoadState)
    -> Result<LoadState, ParseError>
    decreases bytes.len() - start,
{
    if !(0 <= start < bytes.len()) {
        Ok(st)
    } else {
        let e = find_from(bytes, 10, start);
        let stop = if e < start || e > bytes.len() {
            bytes.len() as int
        } else {
            e
        };
        let line = bytes.subrange(start, stop);
        let next = if stop < bytes.len() {
            stop + 1
        } else {
            bytes.len() as int
        };
        if line.len() == 0 || line[0] == 35 {
            spec_load(bytes, d, split_rows, next, st)
        } else {
            match spec_split_line(line, d) {
                Option::None => Err(ParseError::BadLine),
                Option::Some(f) => {
                    if !(f.2.len() > 0 && all_digits(f.2) && str_val(f.2) <= u64::MAX) {
                        Err(ParseError::BadLine)
                    } else {
                        let la = if split_rows {
                            f.0
                        } else {
                            f.1
                        };
                        let lb = if split_rows {
                            f.1
                        } else {
                            f.0
                        };
                        match load_line(st, la, lb, str_val(f.2) as u64) {
                            Err(pe) => Err(pe),
                            Ok(st2) => spec_load(bytes, d, split_rows, next, st2),
                        }
                    }
                },
            }
        }
    }
}

/// The weight a loaded graph carries at a cell: the last parsed line that
/// named the cell wins; a cell no line named carries zero.
pub open spec fn weight_of(edges: Seq<(int, int, u64)>, p: int, q: int) -> u64
    decreases edges.len(),
{
    if edges.len() == 0 {
        0u64
    } else if edges.last().0 == p && edges.last().1 == q {
        edges.last().2
    } else {
        weight_of(edges.drop_last(), p, q)
    }
}

/// The views of a label table.
pub open spec fn label_views(t: Seq<Vec<u8>>) -> Seq<Seq<u8>> {
    Seq::new(t.len(), |k: int| t[k]@)
}

/// The edge triples widened to spec integers.
pub open spec fn edge_views(e: Seq<(usize, usize, u64)>) -> Seq<(int, int, u64)> {
    Seq::new(e.len(), |k: int| (e[k].0 as int, e[k].1 as int, e[k].2))
}

/// The load state a set of accumulators stands for.
pub open spec fn state_of(la: Seq<Vec<u8>>, lb: Seq<Vec<u8>>, e: Seq<(usize, usize, u64)>)
    -> LoadState {
    LoadState { la: label_views(la), lb: label_views(lb), edges: edge_views(e) }
}

/// Build a graph from the textual edge-list format. Lines starting with
/// `#` and empty lines are skipped; every other line must split into two
/// labels and a decimal weight. Node indices are assigned densely in
/// order of first appearance of each label. With `split_rows` the first
/// label of a line names a row; without it the axes are swapped, so the
/// primary splitting axis of a later discovery run is the file's second
/// column. The result carries no ground truth.
pub fn load_graph(bytes: &[u8], d: u8, split_rows: bool) -> (r: Result<WeightedBiAdjacency,
    ParseError>)
    ensures
        (r is Ok) <==> (spec_load(bytes@, d, split_rows, 0, load_start()) is Ok),
        r matches Err(e) ==> spec_load(bytes@, d, split_rows, 0, load_start()) == Err::<
            LoadState,
            ParseError,
        >(e),
        r matches Ok(g) ==> (spec_load(bytes@, d, split_rows, 0, load_start()) matches Ok(st) && {
            &&& g.wf()
            &&& g.ground_truth is None
            &&& g.n == st.la.len()
            &&& g.m == st.lb.len()
            &&& forall|k: int| 0 <= k < g.n ==> g.labels_a@[k]@ == st.la[k]
            &&& forall|k: int| 0 <= k < g.m ==> g.labels_b@[k]@ == st.lb[k]
            &&& forall|p: int, q: int|
                0 <= p < g.n && 0 <= q < g.m ==> g.weight(p, q) == weight_of(st.edges, p, q)
        }),
{
    let mut labels_a: Vec<Vec<u8>> = Vec::new();
    let mut labels_b: Vec<Vec<u8>> = Vec::new();
    let mut edges: Vec<(usize, usize, u64)> = Vec::new();
    proof {
        assert(state_of(labels_a@, labels_b@, edges@) =~= load_start());
    }
    let mut start: usize = 0;
    while start < bytes.len()
        invariant
            start <= bytes@.len(),
            labels_a@.len() <= MAX_DIM,
            labels_b@.len() <= MAX_DIM,
            forall|t: int| 0 <= t < edges@.len() ==> edges@[t].0 < labels_a@.len(),
            forall|t: int| 0 <= t < edges@.len() ==> edges@[t].1 < labels_b@.len(),
            forall|t: int| 0 <= t < edges@.len() ==> edges@[t].2 <= MAX_WEIGHT,
            spec_load(bytes@, d, split_rows, 0, load_start()) == spec_load(bytes@, d, split_rows,
                start as int, state_of(labels_a@, labels_b@, edges@)),
        decreases bytes@.len() - start,
    {
        let ghost st0 = state_of(labels_a@, labels_b@, edges@);
        let line_end = match find_byte(bytes, 10, start) {
            Some(e) => e,
            None => bytes.len(),
        };
        let line = copy_range(bytes, start, line_end);
        let next = if line_end < bytes.len() {
            line_end + 1
        } else {
            bytes.len()
        };
        proof {
            assert(line@ == bytes@.subrange(start as int, line_end as int));
        }
        if line.len() > 0 && line[0] != 35 {
            let parsed = match parse_line(line.as_slice(), d) {
                Some(t) => t,
                None => {
                    proof {
                        let ghost sp1 = spec_split_line(line@, d);
                        match sp1 {
                            Option::Some(f) => {
                                assert(!(f.2.len() > 0 && all_digits(f.2) && str_val(f.2)
                                    <= u64::MAX));
                            },
                            Option::None => {},
                        }
                        assert(spec_load(bytes@, d, split_rows, start as int, st0) == Err::<
                            LoadState,
                            ParseError,
                        >(ParseError::BadLine));
                    }
                    return Err(ParseError::BadLine);
                },
            };
            let (first, second, w) = parsed;
            let ghost f = spec_split_line(line@, d)->Some_0;
            let (la, lb) = if split_rows {
                (first, second)
            } else {
                (second, first)
            };
            proof {
                assert(la@ == if split_rows {
                    f.0
                } else {
                    f.1
                });
                assert(lb@ == if split_rows {
                    f.1
                } else {
                    f.0
                });
                assert(w == str_val(f.2));
            }
            if w > MAX_WEIGHT {
                proof {
                    assert(spec_load(bytes@, d, split_rows, start as int, st0) == Err::<
                        LoadState,
                        ParseError,
                    >(ParseError::WeightTooLarge));
                }
                return Err(ParseError::WeightTooLarge);
            }
            let ia = match find_label(&labels_a, &la) {
                Some(i) => {
                    proof {
                        lemma_resolve_bridge(labels_a@, la@, i as int);
                    }
                    i
                },
                None => {
                    proof {
                        lemma_resolve_bridge_none(labels_a@, la@);
                    }
                    if labels_a.len() >= MAX_DIM {
                        proof {
                            assert(spec_load(bytes@, d, split_rows, start as int, st0) == Err::<
                                LoadState,
                                ParseError,
                            >(ParseError::TooManyNodes));
                        }
                        return Err(ParseError::TooManyNodes);
                    }
                    labels_a.push(la);
                    labels_a.len() - 1
                },
            };
            let jb = match find_label(&labels_b, &lb) {
                Some(i) => {
                    proof {
                        lemma_resolve_bridge(labels_b@, lb@, i as int);
                    }
                    i
                },
                None => {
                    proof {
                        lemma_resolve_bridge_none(labels_b@, lb@);
                    }
                    if labels_b.len() >= MAX_DIM {
                        proof {
                            assert(find_index(st0.lb, lb@) < 0);
                            assert(spec_load(bytes@, d, split_rows, start as int, st0) == Err::<
                                LoadState,
                                ParseError,
                            >(ParseError::TooManyNodes));
                        }
                        return Err(ParseError::TooManyNodes);
                    }
                    labels_b.push(lb);
                    labels_b.len() - 1
                },
            };
            edges.push((ia, jb, w));
            proof {
                let st2 = load_line(st0, if split_rows {
                    f.0
                } else {
                    f.1
                }, if split_rows {
                    f.1
                } else {
                    f.0
                }, str_val(f.2) as u64);
                assert(label_views(labels_a@) =~= (if find_index(st0.la, la@) < 0 {
                    st0.la.push(la@)
                } else {
                    st0.la
                }));
                assert(label_views(labels_b@) =~= (if find_index(st0.lb, lb@) < 0 {
                    st0.lb.push(lb@)
                } else {
                    st0.lb
                }));
                assert(edge_views(edges@) =~= st0.edges.push((ia as int, jb as int, w)));
                assert(st2 == Ok::<LoadState, ParseError>(state_of(labels_a@, labels_b@,
                    edges@)));
                assert(spec_load(bytes@, d, split_rows, start as int, st0) == spec_load(bytes@,
                    d, split_rows, next as int, state_of(labels_a@, labels_b@, edges@)));
            }
        } else {
            proof {
                assert(spec_load(bytes@, d, split_rows, start as int, st0) == spec_load(bytes@,
                    d, split_rows, next as int, st0));
            }
        }
        start = next;
    }
    proof {
        assert(spec_load(bytes@, d, split_rows, start as int, state_of(labels_a@, labels_b@,
            edges@)) == Ok::<LoadState, ParseError>(state_of(labels_a@, labels_b@, edges@)));
    }
    let ghost st = state_of(labels_a@, labels_b@, edges@);
    let n = labels_a.len();
    let m = labels_b.len();
    let mut g = WeightedBiAdjacency::new(n, m);
    let mut k: usize = 0;
    while k < labels_a.len()
        invariant
            k <= labels_a@.len(),
            labels_a@.len() == n,
            labels_b@.len() == m,
            g.wf(),
            g.n == n,
            g.m == m,
            g.ground_truth is None,
            forall|t: int| 0 <= t < k ==> g.labels_a@[t]@ == labels_a@[t]@,
            forall|p: int, q: int| 0 <= p < n && 0 <= q < m ==> g.weight(p, q) == 0,
        decreases labels_a@.len() - k,
    {
        let l = crate::graph::copy_bytes(&labels_a[k]);
        let ghost gprev = g;
        g.set_label_a(k, l);
        proof {
            assert forall|t: int| 0 <= t < k + 1 implies g.labels_a@[t]@ == labels_a@[t]@ by {
                if t < k {
                    assert(g.labels_a@[t] == gprev.labels_a@[t]);
                }
            }
            lemma_weights_equal_transfer(gprev, g, n as int, m as int);
        }
        k += 1;
    }
    let mut k2: usize = 0;
    while k2 < labels_b.len()
        invariant
            k2 <= labels_b@.len(),
            labels_a@.len() == n,
            labels_b@.len() == m,
            g.wf(),
            g.n == n,
            g.m == m,
            g.ground_truth is None,
            forall|t: int| 0 <= t < n ==> g.labels_a@[t]@ == labels_a@[t]@,
            forall|t: int| 0 <= t < k2 ==> g.labels_b@[t]@ == labels_b@[t]@,
            forall|p: int, q: int| 0 <= p < n && 0 <= q < m ==> g.weight(p, q) == 0,
        decreases labels_b@.len() - k2,
    {
        let l = crate::graph::copy_bytes(&labels_b[k2]);
        let ghost gprev = g;
        g.set_label_b(k2, l);
        proof {
            assert forall|t: int| 0 <= t < k2 + 1 implies g.labels_b@[t]@ == labels_b@[t]@ by {
                if t < k2 {
                    assert(g.labels_b@[t] == gprev.labels_b@[t]);
                }
            }
            lemma_weights_equal_transfer(gprev, g, n as int, m as int);
        }
        k2 += 1;
    }
    let mut e: usize = 0;
    while e < edges.len()
        invariant
            e <= edges@.len(),
            labels_a@.len() == n,
            labels_b@.len() == m,
            g.wf(),
            g.n == n,
            g.m == m,
            g.ground_truth is None,
            forall|t: int| 0 <= t < n ==> g.labels_a@[t]@ == labels_a@[t]@,
            forall|t: int| 0 <= t < m ==> g.labels_b@[t]@ == labels_b@[t]@,
            forall|t: int| 0 <= t < edges@.len() ==> edges@[t].0 < n,
            forall|t: int| 0 <= t < edges@.len() ==> edges@[t].1 < m,
            forall|t: int| 0 <= t < edges@.len() ==> edges@[t].2 <= MAX_WEIGHT,
            forall|p: int, q: int|
                0 <= p < n && 0 <= q < m ==> g.weight(p, q) == weight_of(
                    edge_views(edges@).take(e as int), p, q),
        decreases edges@.len() - e,
    {
        let (ia, jb, w) = edges[e];
        let ghost gprev = g;
        g.set_weight(ia, jb, w);
        proof {
            let ev = edge_views(edges@);
            assert(ev.take(e as int + 1).drop_last() =~= ev.take(e as int));
            assert(ev.take(e as int + 1).last() == (ia as int, jb as int, w));
            assert forall|p: int, q: int|
                0 <= p < n && 0 <= q < m implies g.weight(p, q) == weight_of(ev.take(
                e as int + 1), p, q) by {
                if p == ia && q == jb {
                    assert(g.weight(p, q) == w);
                } else {
                    assert(g.weight(p, q) == gprev.weight(p, q));
                }
            }
        }
        e += 1;
    }
    proof {
        assert(edge_views(edges@).take(edges@.len() as int) =~= edge_views(edges@));
        assert forall|p: int, q: int|
            0 <= p < n && 0 <= q < m implies g.weight(p, q) == weight_of(st.edges, p, q) by {}
        assert forall|k: int| 0 <= k < n implies g.labels_a@[k]@ == st.la[k] by {}
        assert forall|k: int| 0 <= k < m implies g.labels_b@[k]@ == st.lb[k] by {}
    }
    Ok(g)
}

/// An exec table search agrees with the spec's first-index search.
proof fn lemma_resolve_bridge(table: Seq<Vec<u8>>, l: Seq<u8>, i: int)
    requires
        0 <= i < table.len(),
        table[i]@ == l,
        forall|t: int| 0 <= t < i ==> table[t]@ != l,
    ensures
        find_index(label_views(table), l) == i,
{
    let v = label_views(table);
    assert(v[i] == l);
    lemma_find_index_char(v, l);
    let fi = find_index(v, l);
    if fi < 0 {
        assert(v[i] != l);
        assert(false);
    }
    if fi < i {
        assert(table[fi]@ != l);
        assert(v[fi] == l);
        assert(false);
    }
    if fi > i {
        assert(v[i] != l);
        assert(false);
    }
}

/// An exhausted exec table search agrees with the spec's search.
proof fn lemma_resolve_bridge_none(table: Seq<Vec<u8>>, l: Seq<u8>)
    requires
        forall|t: int| 0 <= t < table.len() ==> table[t]@ != l,
    ensures
        find_index(label_views(table), l) < 0,
{
    let v = label_views(table);
    lemma_find_index_char(v, l);
    let fi = find_index(v, l);
    if fi >= 0 {
        assert(table[fi]@ != l);
        assert(v[fi] == l);
        assert(false);
    }
}

/// Label writes leave every weight in place.
proof fn lemma_weights_equal_transfer(a: WeightedBiAdjacency, b: WeightedBiAdjacency, n: int,
    m: int)
    requires
        b.weights@ == a.weights@,
    ensures
        forall|p: int, q: int| 0 <= p < n && 0 <= q < m ==> b.weight(p, q) == a.weight(p, q),
{
    assert forall|p: int, q: int| 0 <= p < n && 0 <= q < m implies b.weight(p, q) == a.weight(
        p, q) by {
        assert(b.weights@[p] == a.weights@[p]);
    }
}


/// Every line the serializer emits survives the split: the rendering of an
/// edge cell, stripped of its terminating newline, splits back into exactly
/// that cell's row label, column label and weight, provided the labels are
/// free of the delimiter and the delimiter is not a digit.
pub proof fn lemma_cell_round_trip(g: WeightedBiAdjacency, d: u8, i: int, j: int)
    requires
        g.wf(),
        0 <= i < g.n,
        0 <= j < g.m,
        g.weight(i, j) > 0,
        delim_free(g.labels_a@[i]@, d),
        delim_free(g.labels_b@[j]@, d),
        !is_digit(d),
    ensures
        spec_split_line(render_cell(g, d, i, j).drop_last(), d) == Some(
            (g.labels_a@[i]@, g.labels_b@[j]@, dec(g.weight(i, j) as int)),
        ),
        str_val(dec(g.weight(i, j) as int)) == g.weight(i, j),
{
    let w = g.weight(i, j) as int;
    lemma_line_round_trip(g.labels_a@[i]@, g.labels_b@[j]@, w, d);
    assert(render_cell(g, d, i, j).drop_last() =~= line_of(g.labels_a@[i]@, g.labels_b@[j]@, w,
        d));
}

} // verus!
