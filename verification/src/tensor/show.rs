//! Tensors as text.

use vstd::prelude::*;
use vstd::arithmetic::mul::*;
use vstd::string::*;
use crate::elem::Elem;
use crate::index::{index2, lemma_rank0, lemma_rank2};
use crate::tensor::Tensor;
use crate::text::{dims_string, dims_text, join4, join5, nat_text, usize_string};
use crate::types::DType;

verus! {

/// How many rows or values are shown before the rest is only counted.
pub const SHOWN_ROWS: usize = 6;

/// `s` is how the element type shows `v` on its own.
pub open spec fn shown_as<E: Elem>(v: E, s: Seq<char>) -> bool {
    exists|t: String| t@ == s && #[trigger] call_ensures(E::shown, (v,), t)
}

/// `s` is how the element type shows `v` inside a list.
pub open spec fn listed_as<E: Elem>(v: E, s: Seq<char>) -> bool {
    exists|t: String| t@ == s && #[trigger] call_ensures(E::listed, (v,), t)
}

/// `out` lists the first `n` values, one numbered line each.
pub open spec fn value_lines<E: Elem>(data: Seq<E>, n: int, out: Seq<char>) -> bool
    decreases n,
{
    if n <= 0 {
        out == ""@
    } else {
        exists|above: Seq<char>, v: Seq<char>|
            value_lines(data, n - 1, above) && #[trigger] shown_as(data[n - 1], v) && out
                == #[trigger] numbered_line(above, n, v)
    }
}

/// `above` with line number `n` added.
pub open spec fn numbered_line(above: Seq<char>, n: int, v: Seq<char>) -> Seq<char> {
    above + "  ["@ + nat_text((n - 1) as nat) + "] "@ + v + "\n"@
}

/// `out` shows the values of a row, separated by commas.
pub open spec fn row_items<E: Elem>(row: Seq<E>, out: Seq<char>) -> bool
    decreases row.len(),
{
    if row.len() == 0 {
        out == ""@
    } else {
        exists|before: Seq<char>, v: Seq<char>|
            row_items(row.drop_last(), before) && #[trigger] listed_as(row.last(), v) && out
                == #[trigger] next_item(before, row.len(), v)
    }
}

/// `before` with a value added that makes `n` in all.
pub open spec fn next_item(before: Seq<char>, n: nat, v: Seq<char>) -> Seq<char> {
    if n == 1 {
        v
    } else {
        before + ", "@ + v
    }
}

/// Row `r` of flat data with `cols` values per row, as far as it reaches.
pub open spec fn data_row<E>(data: Seq<E>, r: int, cols: int) -> Seq<E> {
    if (r + 1) * cols <= data.len() {
        data.subrange(r * cols, (r + 1) * cols)
    } else {
        Seq::empty()
    }
}

/// `out` lists the first `n` rows, one line each.
pub open spec fn row_lines<E: Elem>(data: Seq<E>, cols: int, n: int, out: Seq<char>) -> bool
    decreases n,
{
    if n <= 0 {
        out == ""@
    } else {
        exists|above: Seq<char>, row: Seq<char>|
            row_lines(data, cols, n - 1, above) && #[trigger] row_items(
                data_row(data, n - 1, cols),
                row,
            ) && out == #[trigger] row_line(above, row)
    }
}

/// `above` with one more row.
pub open spec fn row_line(above: Seq<char>, row: Seq<char>) -> Seq<char> {
    above + "  ["@ + row + "]\n"@
}

/// The first line of a tensor's text.
pub open spec fn header(dims: Seq<usize>) -> Seq<char> {
    "Tensor(shape="@ + dims_text(dims) + ", dtype="@ + DType::F32.label() + ")\n"@
}

/// The line that counts what is not shown, empty when all is shown.
pub open spec fn more_line(total: int, what: Seq<char>) -> Seq<char> {
    if total > SHOWN_ROWS {
        "  ... ("@ + nat_text((total - SHOWN_ROWS) as nat) + what + ")\n"@
    } else {
        ""@
    }
}

/// `n`, but no more than are shown.
pub open spec fn shown_rows(n: int) -> int {
    if n < SHOWN_ROWS {
        n
    } else {
        SHOWN_ROWS as int
    }
}

/// `out` is the text of `t`: the value alone for a 0-d tensor, otherwise a
/// header and the first values or rows.
pub open spec fn tensor_text<E: Elem>(t: Tensor<E>, out: Seq<char>) -> bool {
    let dims = t.dims();
    if dims.len() == 0 {
        shown_as(t.data()[0], out)
    } else if dims.len() == 1 {
        exists|lines: Seq<char>| #[trigger]
            value_lines(t.data(), shown_rows(t.count() as int), lines) && out == header(dims)
                + lines + more_line(t.count() as int, " more"@)
    } else {
        exists|lines: Seq<char>| #[trigger]
            row_lines(t.data(), dims.last() as int, shown_rows(dims[0] as int), lines) && out
                == header(dims) + lines + more_line(dims[0] as int, " more rows"@)
    }
}

fn show<E: Elem>(v: E) -> (r: String)
    ensures
        shown_as(v, r@),
{
    E::shown(v)
}

fn list<E: Elem>(v: E) -> (r: String)
    ensures
        listed_as(v, r@),
{
    E::listed(v)
}

fn more(total: usize, what: &str) -> (r: String)
    ensures
        r@ == more_line(total as int, what@),
{
    if total > SHOWN_ROWS {
        join4("  ... (", usize_string(total - SHOWN_ROWS).as_str(), what, ")\n")
    } else {
        "".to_string()
    }
}

fn row_string<E: Elem>(row: &[E]) -> (r: String)
    ensures
        row_items(row@, r@),
{
    let mut out = "".to_string();
    let mut i: usize = 0;
    while i < row.len()
        invariant
            0 <= i <= row.len(),
            row_items(row@.take(i as int), out@),
        decreases row.len() - i,
    {
        let ghost before = out@;
        let v = list(row[i]);
        if i == 0 {
            out = v.clone();
        } else {
            out.append(", ");
            out.append(v.as_str());
        }
        i = i + 1;
        proof {
            let now = row@.take(i as int);
            assert(now.drop_last() =~= row@.take(i - 1));
            assert(listed_as(now.last(), v@));
            assert(out@ == next_item(before, now.len(), v@));
        }
    }
    assert(row@.take(i as int) =~= row@);
    out
}

impl<E: Elem> Tensor<E> {
    /// Human-readable text in the spirit of `torch.Tensor.__repr__`, kept
    /// deliberately small: shape header plus up to 6 rows/values.
    pub fn to_string(&self) -> (r: String)
        ensures
            tensor_text(*self, r@),
    {
        let data = self.to_vec();
        if self.ndim() == 0 {
            proof {
                lemma_rank0(self.dims());
            }
            return show(data[0]);
        }
        let mut out = join5(
            "Tensor(shape=",
            dims_string(self.shape()).as_str(),
            ", dtype=",
            self.dtype().name(),
            ")\n",
        );
        let ghost head = out@;
        let mut lines = "".to_string();
        let mut i: usize = 0;
        if self.ndim() == 1 {
            while i < data.len() && i < SHOWN_ROWS
                invariant
                    0 <= i <= data.len(),
                    i <= SHOWN_ROWS,
                    data@ == self.data(),
                    value_lines(data@, i as int, lines@),
                decreases data.len() - i,
            {
                let ghost above = lines@;
                let v = show(data[i]);
                lines.append("  [");
                lines.append(usize_string(i).as_str());
                lines.append("] ");
                lines.append(v.as_str());
                lines.append("\n");
                i = i + 1;
                proof {
                    assert(shown_as(data@[i - 1], v@));
                    assert(lines@ == numbered_line(above, i as int, v@));
                }
            }
            assert(i == shown_rows(self.count() as int));
            out.append(lines.as_str());
            out.append(more(data.len(), " more").as_str());
            return out;
        }
        let rows: usize = self.shape()[0];
        let cols: usize = self.shape()[self.ndim() - 1];
        while i < rows && i < SHOWN_ROWS
            invariant
                0 <= i <= rows,
                i <= SHOWN_ROWS,
                data@ == self.data(),
                row_lines(data@, cols as int, i as int, lines@),
            decreases rows - i,
        {
            let ghost above = lines@;
            let row = row_string(nth_row(data.as_slice(), i, cols));
            lines.append("  [");
            lines.append(row.as_str());
            lines.append("]\n");
            i = i + 1;
            proof {
                assert(row_items(data_row(data@, i - 1, cols as int), row@));
                assert(lines@ == row_line(above, row@));
            }
        }
        assert(row_lines(
            self.data(),
            self.dims().last() as int,
            shown_rows(self.dims()[0] as int),
            lines@,
        ));
        assert(head == header(self.dims()));
        out.append(lines.as_str());
        out.append(more(rows, " more rows").as_str());
        out
    }
}

/// Row `r` of flat data with `cols` values per row, as far as it reaches.
fn nth_row<E>(data: &[E], r: usize, cols: usize) -> (v: &[E])
    requires
        r < SHOWN_ROWS,
    ensures
        v@ == data_row(data@, r as int, cols as int),
{
    proof {
        lemma_mul_nonnegative(r as int, cols as int);
        assert((r + 1) * cols == r * cols + cols) by (nonlinear_arith);
    }
    let total: usize = data.len();
    let next: usize = r + 1;
    match next.checked_mul(cols) {
        Some(end) => {
            if end <= total {
                return vstd::slice::slice_subrange(data, r * cols, end);
            }
        },
        None => {},
    }
    let none = vstd::slice::slice_subrange(data, 0, 0);
    assert(none@ =~= Seq::<E>::empty());
    none
}

/// What is shown and what is only counted make up everything.
pub proof fn law_text_accounts_for_all(n: int)
    requires
        n >= 0,
    ensures
        0 <= shown_rows(n) <= 6,
        n <= 6 ==> shown_rows(n) == n && more_line(n, " more"@) == ""@,
        n > 6 ==> more_line(n, " more"@) == "  ... ("@ + nat_text((n - shown_rows(n)) as nat)
            + " more"@ + ")\n"@,
{
}

/// A row of a matrix shows its entries from left to right.
pub proof fn law_rows_show_entries<E>(t: Tensor<E>, i: int, j: int)
    requires
        t.dims().len() == 2,
        0 <= i < t.dims()[0],
        0 <= j < t.dims()[1],
    ensures
        data_row(t.data(), i, t.dims()[1] as int).len() == t.dims()[1],
        data_row(t.data(), i, t.dims()[1] as int)[j] == t.at(index2(i, j)),
{
    let cols = t.dims()[1] as int;
    lemma_rank2(t.dims(), i, j);
    t.lemma_at(index2(i, j));
    assert((i + 1) * cols <= t.dims()[0] * cols && (i + 1) * cols == i * cols + cols && i * cols
        >= 0) by (nonlinear_arith)
        requires
            0 <= i < t.dims()[0],
            cols >= 0,
    ;
}

/// Items of a row are separated by a comma and a space.
pub proof fn law_items_are_separated<E: Elem>(row: Seq<E>, x: E, before: Seq<char>, v: Seq<char>)
    requires
        row_items(row, before),
        listed_as(x, v),
    ensures
        row.len() > 0 ==> row_items(row.push(x), before + seq![',', ' '] + v),
        row.len() == 0 ==> row_items(row.push(x), v),
{
    reveal_strlit(", ");
    assert(", "@ =~= seq![',', ' ']);
    assert(row.push(x).drop_last() =~= row);
    assert(row.push(x).last() == x);
    let n = row.push(x).len();
    assert(row_items(row.push(x), next_item(before, n, v)));
}

} // verus!
