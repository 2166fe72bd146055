//! Grids of numbers read from lines of text: one row for each line, one
//! cell for each field. Rows may differ in length. A cell is an integer, the
//! text of a real, or the text of a complex value.

use crate::numeral::{int_of_text, is_real, is_real_text, parse_int, real_text_chars};
use crate::text::{chars_of, fields, fields_are_clean, split_fields, texts, ParseError};
use vstd::prelude::*;
use vstd::string::*;

verus! {

/// A kind of cell that a grid can hold.
pub trait Cell: Sized {
    /// What a cell stands for in contracts.
    type Value;

    /// The value that a field writes, where it writes one of this kind.
    spec fn written(token: Seq<char>) -> Option<Self::Value>;

    /// The value that a cell holds.
    spec fn value(&self) -> Self::Value;

    /// Reads one field.
    fn parse(token: &str) -> (cell: Option<Self>)
        ensures
            match Self::written(token@) {
                Some(value) => cell is Some && cell->0.value() == value,
                None => cell is None,
            },
    ;
}

/// The cells of a row of fields, or the first field that writes no value.
pub open spec fn read_row<T: Cell>(row: Seq<Seq<char>>) -> Result<Seq<T::Value>, Seq<char>>
    decreases row.len(),
{
    if row.len() == 0 {
        Ok(Seq::<T::Value>::empty())
    } else {
        match read_row::<T>(row.drop_last()) {
            Err(token) => Err(token),
            Ok(cells) => match T::written(row.last()) {
                Some(cell) => Ok(cells.push(cell)),
                None => Err(row.last()),
            },
        }
    }
}

/// The rows of a list of lines, or the first field, in reading order, that
/// writes no value.
pub open spec fn read_grid<T: Cell>(lines: Seq<Seq<char>>) -> Result<
    Seq<Seq<T::Value>>,
    Seq<char>,
>
    decreases lines.len(),
{
    if lines.len() == 0 {
        Ok(Seq::<Seq<T::Value>>::empty())
    } else {
        match read_grid::<T>(lines.drop_last()) {
            Err(token) => Err(token),
            Ok(rows) => match read_row::<T>(fields(lines.last())) {
                Ok(cells) => Ok(rows.push(cells)),
                Err(token) => Err(token),
            },
        }
    }
}

/// What a row of cells holds.
pub open spec fn values_of<T: Cell>(cells: Seq<T>) -> Seq<T::Value> {
    Seq::new(cells.len(), |i: int| cells[i].value())
}

/// What a grid holds, row by row.
pub open spec fn grid_values<T: Cell>(grid: Seq<Vec<T>>) -> Seq<Seq<T::Value>> {
    Seq::new(grid.len(), |i: int| values_of(grid[i]@))
}

/// A field that fails in the first part of a row is the one that fails in
/// the whole row.
proof fn row_fault_stays<T: Cell>(row: Seq<Seq<char>>, k: int)
    requires
        0 <= k <= row.len(),
    ensures
        read_row::<T>(row.take(k)) is Err ==> read_row::<T>(row) == read_row::<T>(row.take(k)),
    decreases row.len(),
{
    if k == row.len() {
        assert(row.take(k) =~= row);
    } else {
        assert(row.drop_last().take(k) =~= row.take(k));
        row_fault_stays::<T>(row.drop_last(), k);
    }
}

/// A field that fails in the first lines is the one that fails in all of
/// them.
proof fn grid_fault_stays<T: Cell>(lines: Seq<Seq<char>>, k: int)
    requires
        0 <= k <= lines.len(),
    ensures
        read_grid::<T>(lines.take(k)) is Err ==> read_grid::<T>(lines) == read_grid::<T>(
            lines.take(k),
        ),
    decreases lines.len(),
{
    if k == lines.len() {
        assert(lines.take(k) =~= lines);
    } else {
        assert(lines.drop_last().take(k) =~= lines.take(k));
        grid_fault_stays::<T>(lines.drop_last(), k);
    }
}

/// Reads the fields of one line.
pub fn load_row<T: Cell>(line: &str) -> (out: Result<Vec<T>, ParseError>)
    ensures
        match read_row::<T>(fields(line@)) {
            Ok(cells) => out is Ok && values_of(out->Ok_0@) == cells,
            Err(token) => out is Err && out->Err_0.token@ == token,
        },
{
    let tokens = split_fields(line);
    let ghost row = fields(line@);
    let mut cells: Vec<T> = Vec::new();
    let mut k: usize = 0;
    assert(row.take(0) =~= Seq::<Seq<char>>::empty());
    assert(values_of(cells@) =~= Seq::<T::Value>::empty());
    while k < tokens.len()
        invariant
            k <= tokens@.len(),
            texts(tokens@) == row,
            row == fields(line@),
            read_row::<T>(row.take(k as int)) == Ok::<Seq<T::Value>, Seq<char>>(values_of(cells@)),
        decreases tokens@.len() - k,
    {
        let ghost upto = row.take(k + 1);
        let ghost done = values_of(cells@);
        assert(upto.drop_last() =~= row.take(k as int));
        assert(upto.last() == tokens@[k as int]@);
        proof {
            row_fault_stays::<T>(row, k + 1);
        }
        match T::parse(tokens[k].as_str()) {
            Some(cell) => {
                let ghost value = cell.value();
                cells.push(cell);
                assert(values_of(cells@) =~= done.push(value));
            },
            None => {
                return Err(ParseError { token: tokens[k].clone() });
            },
        }
        k = k + 1;
    }
    assert(row.take(k as int) =~= row);
    Ok(cells)
}

/// Reads a list of lines as a grid.
pub fn load_txt<T: Cell>(lines: &Vec<String>) -> (out: Result<Vec<Vec<T>>, ParseError>)
    ensures
        match read_grid::<T>(texts(lines@)) {
            Ok(rows) => out is Ok && grid_values(out->Ok_0@) == rows,
            Err(token) => out is Err && out->Err_0.token@ == token,
        },
{
    let ghost all = texts(lines@);
    let mut grid: Vec<Vec<T>> = Vec::new();
    let mut k: usize = 0;
    assert(all.take(0) =~= Seq::<Seq<char>>::empty());
    assert(grid_values(grid@) =~= Seq::<Seq<T::Value>>::empty());
    while k < lines.len()
        invariant
            k <= lines@.len(),
            all == texts(lines@),
            read_grid::<T>(all.take(k as int)) == Ok::<Seq<Seq<T::Value>>, Seq<char>>(
                grid_values(grid@),
            ),
        decreases lines@.len() - k,
    {
        let ghost upto = all.take(k + 1);
        let ghost done = grid_values(grid@);
        assert(upto.drop_last() =~= all.take(k as int));
        assert(upto.last() == lines@[k as int]@);
        proof {
            grid_fault_stays::<T>(all, k + 1);
        }
        match load_row::<T>(lines[k].as_str()) {
            Ok(cells) => {
                let ghost row = values_of(cells@);
                grid.push(cells);
                assert(grid_values(grid@) =~= done.push(row));
            },
            Err(fault) => {
                return Err(fault);
            },
        }
        k = k + 1;
    }
    assert(all.take(k as int) =~= all);
    Ok(grid)
}

/// Looks for the first row of a grid that has fewer than `width` cells.
/// A grid of nodes has to have two cells in each row.
pub fn first_short_row<T>(grid: &Vec<Vec<T>>, width: usize) -> (found: Option<usize>)
    ensures
        match found {
            Some(r) => {
                &&& r < grid@.len()
                &&& grid@[r as int]@.len() < width
                &&& forall|q: int| 0 <= q < r ==> (#[trigger] grid@[q])@.len() >= width
            },
            None => forall|q: int| 0 <= q < grid@.len() ==> (#[trigger] grid@[q])@.len() >= width,
        },
{
    let mut r: usize = 0;
    while r < grid.len()
        invariant
            r <= grid@.len(),
            forall|q: int| 0 <= q < r ==> (#[trigger] grid@[q])@.len() >= width,
        decreases grid@.len() - r,
    {
        if grid[r].len() < width {
            return Some(r);
        }
        r = r + 1;
    }
    None
}

/// A row is read exactly when each of its fields writes a value; its cells
/// are then the values of the fields, in their order. Otherwise the field
/// reported is the first that writes none.
pub proof fn read_row_by_field<T: Cell>(row: Seq<Seq<char>>)
    ensures
        read_row::<T>(row) is Ok <==> forall|k: int|
            0 <= k < row.len() ==> T::written(#[trigger] row[k]) is Some,
        read_row::<T>(row) is Ok ==> {
            &&& read_row::<T>(row)->Ok_0.len() == row.len()
            &&& forall|k: int|
                0 <= k < row.len() ==> #[trigger] read_row::<T>(row)->Ok_0[k] == T::written(
                    row[k],
                )->0
        },
        read_row::<T>(row) is Err ==> exists|k: int|
            {
                &&& 0 <= k < row.len()
                &&& read_row::<T>(row)->Err_0 == #[trigger] row[k]
                &&& T::written(row[k]) is None
                &&& forall|j: int| 0 <= j < k ==> T::written(#[trigger] row[j]) is Some
            },
    decreases row.len(),
{
    if row.len() > 0 {
        let before = row.drop_last();
        read_row_by_field::<T>(before);
        assert forall|k: int| 0 <= k < before.len() implies before[k] == row[k] by {}
        if read_row::<T>(before) is Err {
            let k = choose|k: int|
                {
                    &&& 0 <= k < before.len()
                    &&& read_row::<T>(before)->Err_0 == #[trigger] before[k]
                    &&& T::written(before[k]) is None
                    &&& forall|j: int| 0 <= j < k ==> T::written(#[trigger] before[j]) is Some
                };
            assert(T::written(row[k]) is None);
            assert forall|j: int| 0 <= j < k implies T::written(#[trigger] row[j]) is Some by {
                assert(T::written(before[j]) is Some);
            }
            assert(read_row::<T>(row)->Err_0 == row[k]);
        } else if T::written(row.last()) is None {
            let k = row.len() - 1;
            assert forall|j: int| 0 <= j < k implies T::written(#[trigger] row[j]) is Some by {
                assert(T::written(before[j]) is Some);
            }
            assert(read_row::<T>(row)->Err_0 == row[k]);
        } else {
            assert forall|k: int| 0 <= k < row.len() implies T::written(
                #[trigger] row[k],
            ) is Some by {
                if k < before.len() {
                    assert(T::written(before[k]) is Some);
                }
            }
            assert forall|k: int| 0 <= k < row.len() implies #[trigger] read_row::<T>(
                row,
            )->Ok_0[k] == T::written(row[k])->0 by {
                if k < before.len() {
                    assert(read_row::<T>(before)->Ok_0[k] == T::written(before[k])->0);
                }
            }
        }
    }
}

/// A grid is read exactly when each of its lines is; its rows are then the
/// rows of the lines, in their order. Otherwise the field reported is the
/// one reported for the first line that is not read.
pub proof fn read_grid_by_line<T: Cell>(lines: Seq<Seq<char>>)
    ensures
        read_grid::<T>(lines) is Ok <==> forall|r: int|
            0 <= r < lines.len() ==> read_row::<T>(fields(#[trigger] lines[r])) is Ok,
        read_grid::<T>(lines) is Ok ==> {
            &&& read_grid::<T>(lines)->Ok_0.len() == lines.len()
            &&& forall|r: int|
                0 <= r < lines.len() ==> #[trigger] read_grid::<T>(lines)->Ok_0[r] == read_row::<
                    T,
                >(fields(lines[r]))->Ok_0
        },
        read_grid::<T>(lines) is Err ==> exists|r: int|
            {
                &&& 0 <= r < lines.len()
                &&& read_row::<T>(fields(#[trigger] lines[r])) is Err
                &&& read_grid::<T>(lines)->Err_0 == read_row::<T>(fields(lines[r]))->Err_0
                &&& forall|q: int| 0 <= q < r ==> read_row::<T>(fields(#[trigger] lines[q])) is Ok
            },
    decreases lines.len(),
{
    if lines.len() > 0 {
        let before = lines.drop_last();
        read_grid_by_line::<T>(before);
        assert forall|r: int| 0 <= r < before.len() implies before[r] == lines[r] by {}
        if read_grid::<T>(before) is Err {
            let r = choose|r: int|
                {
                    &&& 0 <= r < before.len()
                    &&& read_row::<T>(fields(#[trigger] before[r])) is Err
                    &&& read_grid::<T>(before)->Err_0 == read_row::<T>(fields(before[r]))->Err_0
                    &&& forall|q: int|
                        0 <= q < r ==> read_row::<T>(fields(#[trigger] before[q])) is Ok
                };
            assert(read_row::<T>(fields(lines[r])) is Err);
            assert forall|q: int| 0 <= q < r implies read_row::<T>(
                fields(#[trigger] lines[q]),
            ) is Ok by {
                assert(read_row::<T>(fields(before[q])) is Ok);
            }
            assert(read_grid::<T>(lines)->Err_0 == read_row::<T>(fields(lines[r]))->Err_0);
        } else if read_row::<T>(fields(lines.last())) is Err {
            let r = lines.len() - 1;
            assert forall|q: int| 0 <= q < r implies read_row::<T>(
                fields(#[trigger] lines[q]),
            ) is Ok by {
                assert(read_row::<T>(fields(before[q])) is Ok);
            }
            assert(read_grid::<T>(lines)->Err_0 == read_row::<T>(fields(lines[r]))->Err_0);
        } else {
            assert forall|r: int| 0 <= r < lines.len() implies read_row::<T>(
                fields(#[trigger] lines[r]),
            ) is Ok by {
                if r < before.len() {
                    assert(read_row::<T>(fields(before[r])) is Ok);
                }
            }
            assert forall|r: int| 0 <= r < lines.len() implies #[trigger] read_grid::<T>(
                lines,
            )->Ok_0[r] == read_row::<T>(fields(lines[r]))->Ok_0 by {
                if r < before.len() {
                    assert(read_grid::<T>(before)->Ok_0[r] == read_row::<T>(
                        fields(before[r]),
                    )->Ok_0);
                }
            }
        }
    }
}

impl Cell for i32 {
    type Value = i32;

    open spec fn written(token: Seq<char>) -> Option<i32> {
        int_of_text(token)
    }

    open spec fn value(&self) -> i32 {
        *self
    }

    fn parse(token: &str) -> (cell: Option<i32>) {
        parse_int(token)
    }
}

/// The text of a real, as it stood in a field.
#[derive(Debug, PartialEq, Eq)]
pub struct RealText {
    pub text: String,
}

impl Cell for RealText {
    type Value = Seq<char>;

    open spec fn written(token: Seq<char>) -> Option<Seq<char>> {
        if is_real_text(token) {
            Some(token)
        } else {
            None
        }
    }

    open spec fn value(&self) -> Seq<char> {
        self.text@
    }

    fn parse(token: &str) -> (cell: Option<RealText>) {
        if is_real(token) {
            Some(RealText { text: String::from_str(token) })
        } else {
            None
        }
    }
}

/// The text of a complex value: its real part and, where the field gives
/// one, its imaginary part. A missing imaginary part stands for zero. The
/// parts are kept as written; reading them as numbers is left to the caller.
#[derive(Debug, PartialEq, Eq)]
pub struct ComplexLiteral {
    pub re: String,
    pub im: Option<String>,
}

impl ComplexLiteral {
    /// The two parts as sequences of characters.
    pub open spec fn parts(self) -> (Seq<char>, Option<Seq<char>>) {
        (
            self.re@,
            match self.im {
                Some(im) => Some(im@),
                None => None,
            },
        )
    }
}

/// A character that is neither a parenthesis nor a comma.
pub open spec fn plain_char(c: char) -> bool {
    c != '(' && c != ')' && c != ','
}

/// A text without parentheses and commas.
pub open spec fn is_plain(s: Seq<char>) -> bool {
    forall|i: int| 0 <= i < s.len() ==> plain_char(#[trigger] s[i])
}

/// `k` is the place of a comma with plain text on both sides.
pub open spec fn splits_at(inner: Seq<char>, k: int) -> bool {
    &&& 0 <= k < inner.len()
    &&& inner[k] == ','
    &&& is_plain(inner.take(k))
    &&& is_plain(inner.skip(k + 1))
}

/// How a field is laid out that writes a complex value: plain text `re`, or
/// `(re)`, or `(re,im)`, where `re` and `im` are plain. Any other use of
/// parentheses or commas is no layout of a complex value.
pub open spec fn complex_layout(token: Seq<char>) -> Option<(Seq<char>, Option<Seq<char>>)> {
    if is_plain(token) {
        Some((token, None))
    } else if token.len() >= 2 && token.first() == '(' && token.last() == ')' {
        let inner = token.subrange(1, token.len() - 1);
        if is_plain(inner) {
            Some((inner, None))
        } else if exists|k: int| splits_at(inner, k) {
            let k = choose|k: int| splits_at(inner, k);
            Some((inner.take(k), Some(inner.skip(k + 1))))
        } else {
            None
        }
    } else {
        None
    }
}

/// The parts of a field that writes a complex value: it is laid out as one,
/// and each of its parts writes a real.
pub open spec fn complex_parts(token: Seq<char>) -> Option<(Seq<char>, Option<Seq<char>>)> {
    match complex_layout(token) {
        Some((re, None)) => if is_real_text(re) {
            Some((re, None))
        } else {
            None
        },
        Some((re, Some(im))) => if is_real_text(re) && is_real_text(im) {
            Some((re, Some(im)))
        } else {
            None
        },
        None => None,
    }
}

/// A field has at most one comma with plain text on both sides.
pub proof fn split_point_unique(inner: Seq<char>, a: int, b: int)
    requires
        splits_at(inner, a),
        splits_at(inner, b),
    ensures
        a == b,
{
    if a < b {
        assert(inner.take(b)[a] == ',');
    } else if b < a {
        assert(inner.take(a)[b] == ',');
    }
}

/// The first place from `from` on, and before `to`, that holds a parenthesis
/// or a comma; `to` where there is none.
fn first_special(chars: &Vec<char>, from: usize, to: usize) -> (k: usize)
    requires
        from <= to <= chars@.len(),
    ensures
        from <= k <= to,
        forall|j: int| from <= j < k ==> plain_char(#[trigger] chars@[j]),
        k < to ==> !plain_char(chars@[k as int]),
{
    let mut k: usize = from;
    while k < to
        invariant
            from <= k <= to <= chars@.len(),
            forall|j: int| from <= j < k ==> plain_char(#[trigger] chars@[j]),
        decreases to - k,
    {
        let c: char = chars[k];
        if c == '(' || c == ')' || c == ',' {
            return k;
        }
        k = k + 1;
    }
    k
}

/// Takes one field apart as its layout says, whatever its parts write.
fn layout_of(token: &str) -> (out: Option<ComplexLiteral>)
    ensures
        match complex_layout(token@) {
            Some(parts) => out is Some && out->0.parts() == parts,
            None => out is None,
        },
{
    let chars = chars_of(token);
    let n: usize = chars.len();
    let bare = first_special(&chars, 0, n);
    if bare == n {
        return Some(ComplexLiteral { re: String::from_str(token), im: None });
    }
    assert(!is_plain(token@)) by {
        assert(!plain_char(token@[bare as int]));
    }
    if n < 2 || chars[0] != '(' || chars[n - 1] != ')' {
        return None;
    }
    let ghost inner = token@.subrange(1, n - 1);
    let comma = first_special(&chars, 1, n - 1);
    if comma == n - 1 {
        assert(is_plain(inner));
        return Some(ComplexLiteral { re: String::from_str(token.substring_char(1, n - 1)), im: None });
    }
    assert(!is_plain(inner)) by {
        assert(!plain_char(inner[comma - 1]));
    }
    let rest = first_special(&chars, comma + 1, n - 1);
    if chars[comma] != ',' || rest != n - 1 {
        assert forall|k: int| !splits_at(inner, k) by {
            if splits_at(inner, k) {
                if k < comma - 1 {
                    assert(plain_char(inner[k]));
                } else if k > comma - 1 {
                    assert(inner.take(k)[comma - 1] == inner[comma - 1]);
                } else {
                    assert(inner.skip(k + 1)[rest - comma - 1] == inner[rest - 1]);
                }
            }
        }
        return None;
    }
    let re = String::from_str(token.substring_char(1, comma));
    let im = String::from_str(token.substring_char(comma + 1, n - 1));
    proof {
        assert(inner.take(comma - 1) =~= token@.subrange(1, comma as int));
        assert(inner.skip(comma as int) =~= token@.subrange(comma + 1, n - 1));
        assert(splits_at(inner, comma - 1));
        let k = choose|k: int| splits_at(inner, k);
        split_point_unique(inner, k, comma - 1);
    }
    Some(ComplexLiteral { re, im: Some(im) })
}

/// Takes one field apart into the parts of a complex value.
pub fn split_complex(token: &str) -> (out: Result<ComplexLiteral, ParseError>)
    ensures
        match complex_parts(token@) {
            Some(parts) => out is Ok && out->Ok_0.parts() == parts,
            None => out is Err && out->Err_0.token@ == token@,
        },
{
    match layout_of(token) {
        Some(literal) => {
            let numbers = is_real(literal.re.as_str()) && match &literal.im {
                Some(im) => is_real(im.as_str()),
                None => true,
            };
            if numbers {
                Ok(literal)
            } else {
                Err(ParseError { token: String::from_str(token) })
            }
        },
        None => Err(ParseError { token: String::from_str(token) }),
    }
}

/// Text in parentheses.
pub open spec fn wrapped(inner: Seq<char>) -> Seq<char> {
    seq!['('] + inner + seq![')']
}

/// Two texts with a comma between them.
pub open spec fn paired(re: Seq<char>, im: Seq<char>) -> Seq<char> {
    re + seq![','] + im
}

/// The text of a real is plain.
pub proof fn real_is_plain(s: Seq<char>)
    requires
        is_real_text(s),
    ensures
        is_plain(s),
{
    real_text_chars(s);
}

/// Every real `re` writes a complex value, bare and in parentheses, and so
/// does every pair of reals `re` and `im` in parentheses.
pub proof fn reals_write_complex(re: Seq<char>, im: Seq<char>)
    requires
        is_real_text(re),
        is_real_text(im),
    ensures
        complex_parts(re) == Some((re, None::<Seq<char>>)),
        complex_parts(wrapped(re)) == Some((re, None::<Seq<char>>)),
        complex_parts(wrapped(paired(re, im))) == Some((re, Some(im))),
{
    real_is_plain(re);
    real_is_plain(im);
    let single = wrapped(re);
    assert(!plain_char(single[0]));
    assert(single.subrange(1, single.len() - 1) =~= re);
    let inner = paired(re, im);
    let pair = wrapped(inner);
    let k = re.len() as int;
    assert(!plain_char(pair[0]));
    assert(pair.subrange(1, pair.len() - 1) =~= inner);
    assert(!plain_char(inner[k]));
    assert(inner.take(k) =~= re);
    assert(inner.skip(k + 1) =~= im);
    assert(splits_at(inner, k));
    split_point_unique(inner, choose|j: int| splits_at(inner, j), k);
}

/// A field that writes a complex value has one of three forms: a real, a
/// real in parentheses, or two reals in parentheses with a comma between
/// them.
pub proof fn complex_has_three_forms(token: Seq<char>)
    ensures
        match complex_parts(token) {
            Some((re, None)) => is_real_text(re) && (token == re || token == wrapped(re)),
            Some((re, Some(im))) => is_real_text(re) && is_real_text(im) && token == wrapped(
                paired(re, im),
            ),
            None => true,
        },
{
    if complex_parts(token) is Some && !is_plain(token) {
        let inner = token.subrange(1, token.len() - 1);
        assert(token =~= wrapped(inner));
        if !is_plain(inner) {
            let k = choose|k: int| splits_at(inner, k);
            assert(inner =~= paired(inner.take(k), inner.skip(k + 1)));
        }
    }
}

impl Cell for ComplexLiteral {
    type Value = (Seq<char>, Option<Seq<char>>);

    open spec fn written(token: Seq<char>) -> Option<(Seq<char>, Option<Seq<char>>)> {
        complex_parts(token)
    }

    open spec fn value(&self) -> (Seq<char>, Option<Seq<char>>) {
        self.parts()
    }

    fn parse(token: &str) -> (cell: Option<ComplexLiteral>) {
        match split_complex(token) {
            Ok(literal) => Some(literal),
            Err(_) => None,
        }
    }
}

/// Takes a list of lines apart into a grid of complex values.
pub fn load_complex(lines: &Vec<String>) -> (out: Result<Vec<Vec<ComplexLiteral>>, ParseError>)
    ensures
        match read_grid::<ComplexLiteral>(texts(lines@)) {
            Ok(rows) => out is Ok && grid_values(out->Ok_0@) == rows,
            Err(token) => out is Err && out->Err_0.token@ == token,
        },
{
    load_txt::<ComplexLiteral>(lines)
}

/// The first cell of each row of a grid.
pub open spec fn first_column(rows: Seq<Seq<(Seq<char>, Option<Seq<char>>)>>) -> Seq<
    (Seq<char>, Option<Seq<char>>),
> {
    Seq::new(rows.len(), |r: int| rows[r][0])
}

/// Takes a measurement out of the lines of its file: one complex value for
/// each line, the first of the line. Every field of every line has to write
/// a complex value, also those that are not taken.
pub fn load_measurement(lines: &Vec<String>) -> (out: Result<Vec<ComplexLiteral>, ParseError>)
    ensures
        match read_grid::<ComplexLiteral>(texts(lines@)) {
            Ok(rows) => out is Ok && values_of(out->Ok_0@) == first_column(rows),
            Err(token) => out is Err && out->Err_0.token@ == token,
        },
{
    let grid = match load_complex(lines) {
        Ok(grid) => grid,
        Err(fault) => {
            return Err(fault);
        },
    };
    let ghost all = texts(lines@);
    let ghost rows = read_grid::<ComplexLiteral>(all)->Ok_0;
    proof {
        read_grid_by_line::<ComplexLiteral>(all);
        assert forall|r: int| 0 <= r < rows.len() implies (#[trigger] rows[r]).len() > 0 by {
            read_row_by_field::<ComplexLiteral>(fields(all[r]));
            fields_are_clean(all[r]);
        }
    }
    let mut column: Vec<ComplexLiteral> = Vec::new();
    let mut r: usize = 0;
    while r < grid.len()
        invariant
            r <= grid@.len(),
            grid_values(grid@) == rows,
            forall|q: int| 0 <= q < rows.len() ==> (#[trigger] rows[q]).len() > 0,
            column@.len() == r,
            forall|q: int| 0 <= q < r ==> (#[trigger] column@[q]).parts() == rows[q][0],
        decreases grid@.len() - r,
    {
        assert(rows[r as int] == values_of(grid@[r as int]@));
        let first = &grid[r][0];
        assert(first.parts() == rows[r as int][0]);
        let im = match &first.im {
            Some(text) => Some(text.clone()),
            None => None,
        };
        column.push(ComplexLiteral { re: first.re.clone(), im });
        r = r + 1;
    }
    assert(values_of(column@) =~= first_column(rows));
    Ok(column)
}

} // verus!
