//! The ASCII rawfile layout.
//!
//! A header of `Title:`, `Date:`, `Command:`, `Plotname:`, `Flags:`,
//! `No. Variables:` and `No. Points:` lines, a `Variables:` block of
//! `\t<i>\t<name>\t<type>` lines, and a `Values:` block in which each point is
//! ` <i>\t<v0>` followed by a `\t<vk>` line per variable and a blank line. A complex
//! value is `re,im`. The date is fixed, so that equal inputs give equal bytes.
use vstd::prelude::*;

use crate::field::lemma_product;
use crate::scalar::Scalar;
use crate::sim::output::SimOutput;
use crate::sim::resolve::texts;
use crate::text::{
    decimal, decimal_digits, digit_char, lemma_position, position, position_from, space, without_leading,
};

verus! {

/// Which plot a table represents.
#[derive(Debug, Clone, Copy, PartialEq, Eq, Structural)]
pub enum RawPlot {
    /// `.op`: a single point, no scale variable.
    OperatingPoint,
    /// `.tran`: `time` scale.
    Transient,
    /// `.dc`: the swept source is the scale (`v-sweep`/`i-sweep`).
    Dc,
    /// `.ac`: complex values, `frequency` scale.
    Ac,
}

impl RawPlot {
    pub open spec fn spec_plotname(self) -> Seq<char> {
        match self {
            RawPlot::OperatingPoint => "Operating Point"@,
            RawPlot::Transient => "Transient Analysis"@,
            RawPlot::Dc => "DC transfer characteristic"@,
            RawPlot::Ac => "AC Analysis"@,
        }
    }

    pub fn plotname(self) -> (r: &'static str)
        ensures
            r@ == self.spec_plotname(),
    {
        match self {
            RawPlot::OperatingPoint => "Operating Point",
            RawPlot::Transient => "Transient Analysis",
            RawPlot::Dc => "DC transfer characteristic",
            RawPlot::Ac => "AC Analysis",
        }
    }
}

/// Whether a text starts as `I(..)` does, in either case.
pub open spec fn starts_as_current(s: Seq<char>) -> bool {
    s.len() > 1 && (s[0] == 'i' || s[0] == 'I') && s[1] == '('
}

/// The type of a variable: `I(..)` is a current, everything else a voltage.
pub open spec fn type_of(label: Seq<char>) -> Seq<char> {
    if starts_as_current(without_leading(label)) {
        "current"@
    } else {
        "voltage"@
    }
}

pub fn var_type(label: &str) -> (r: &'static str)
    ensures
        r@ == type_of(label@),
{
    let n: usize = label.unicode_len();
    let mut i: usize = 0;
    assert(label@.skip(0) =~= label@);
    while i < n
        invariant
            i <= n,
            n == label@.len(),
            without_leading(label@) == without_leading(label@.skip(i as int)),
        decreases n - i,
    {
        let c = label.get_char(i);
        let ghost rest = label@.skip(i as int);
        assert(rest[0] == c);
        if !space(c) {
            assert(without_leading(rest) == rest);
            return if (c == 'i' || c == 'I') && i + 1 < n && label.get_char(i + 1) == '(' {
                "current"
            } else {
                "voltage"
            };
        }
        assert(rest.drop_first() =~= label@.skip(i + 1));
        i = i + 1;
    }
    assert(label@.skip(n as int).len() == 0);
    "voltage"
}

/// The value of a digit.
pub open spec fn digit_value(c: char) -> int {
    c as int - '0' as int
}

/// Whether a text is digits alone, and at least one.
pub open spec fn all_digits(s: Seq<char>) -> bool {
    s.len() > 0 && forall|i: int| 0 <= i < s.len() ==> '0' <= #[trigger] s[i] <= '9'
}

/// The number that digits write.
pub open spec fn digits_value(s: Seq<char>) -> int
    decreases s.len(),
{
    if s.len() == 0 {
        0
    } else {
        10 * digits_value(s.drop_last()) + digit_value(s.last())
    }
}

/// The number that an optional sign and digits write; zero where a text is nothing
/// of the kind or the number does not fit 32 bits.
pub open spec fn exponent_of(s: Seq<char>) -> int {
    let negative = s.len() > 0 && s[0] == '-';
    let signed = s.len() > 0 && (s[0] == '-' || s[0] == '+');
    let digits = if signed {
        s.skip(1)
    } else {
        s
    };
    let v = if negative {
        -digits_value(digits)
    } else {
        digits_value(digits)
    };
    if all_digits(digits) && i32::MIN <= v <= i32::MAX {
        v
    } else {
        0
    }
}

/// A number in scientific notation with a signed exponent of two digits at least.
/// A text without an exponent is left alone.
pub open spec fn padded(raw: Seq<char>) -> Seq<char> {
    let k = position_from(raw, 'e', 0);
    if k == raw.len() {
        raw
    } else {
        let e = exponent_of(raw.skip(k + 1));
        let size = if e < 0 {
            -e
        } else {
            e
        };
        raw.take(k) + "e"@ + (if e < 0 {
            "-"@
        } else {
            "+"@
        }) + (if size < 10 {
            "0"@
        } else {
            ""@
        }) + decimal_digits(size as nat)
    }
}

proof fn lemma_digits_grow(s: Seq<char>, n: int)
    requires
        0 <= n <= s.len(),
        all_digits(s),
    ensures
        0 <= digits_value(s.take(n)) <= digits_value(s),
    decreases s.len(),
{
    if n == s.len() {
        assert(s.take(n) =~= s);
        if s.len() > 1 {
            assert forall|i: int| 0 <= i < s.drop_last().len() implies '0' <= #[trigger] s.drop_last()[i] <= '9' by {
                assert(s.drop_last()[i] == s[i]);
            }
            lemma_digits_grow(s.drop_last(), n - 1);
            assert(s.drop_last().take(n - 1) =~= s.drop_last());
        }
        assert('0' <= s[n - 1] <= '9');
        reveal_with_fuel(digits_value, 2);
    } else if s.len() > 1 {
        assert forall|i: int| 0 <= i < s.drop_last().len() implies '0' <= #[trigger] s.drop_last()[i] <= '9' by {
            assert(s.drop_last()[i] == s[i]);
        }
        lemma_digits_grow(s.drop_last(), n);
        assert(s.drop_last().take(n) =~= s.take(n));
        assert('0' <= s[s.len() - 1] <= '9');
    } else {
        assert(s.take(0).len() == 0);
        assert('0' <= s[0] <= '9');
        reveal_with_fuel(digits_value, 2);
    }
}

fn read_digits(s: &str, from: usize) -> (r: Option<i64>)
    requires
        from <= s@.len(),
    ensures
        match r {
            Some(v) => all_digits(s@.skip(from as int)) && v == digits_value(s@.skip(from as int))
                && 0 <= v <= 2147483648,
            None => !all_digits(s@.skip(from as int)) || digits_value(s@.skip(from as int))
                > 2147483648,
        },
{
    let ghost all = s@.skip(from as int);
    let n: usize = s.unicode_len();
    if from == n {
        return None;
    }
    let mut v: i64 = 0;
    let mut i: usize = from;
    assert(all.take(0).len() == 0);
    while i < n
        invariant
            from <= i <= n,
            from < n,
            n == s@.len(),
            all == s@.skip(from as int),
            0 <= v <= 2147483648,
            v == digits_value(all.take(i - from)),
            forall|j: int| 0 <= j < i - from ==> '0' <= #[trigger] all[j] <= '9',
        decreases n - i,
    {
        let c = s.get_char(i);
        assert(all[i - from] == c);
        if c < '0' || c > '9' {
            return None;
        }
        let digit: i64 = (c as u32) as i64 - 48;
        v = v * 10 + digit;
        proof {
            let more = all.take(i - from + 1);
            assert(more.drop_last() =~= all.take(i - from));
            assert(more.last() == c);
        }
        if v > 2147483648 {
            proof {
                if all_digits(all) {
                    lemma_digits_grow(all, i - from + 1);
                }
            }
            return None;
        }
        i = i + 1;
    }
    assert(all.take(n - from) =~= all);
    Some(v)
}

/// Rewrite the exponent of a number in scientific notation.
pub fn pad_exponent(raw: &str) -> (r: String)
    ensures
        r@ == padded(raw@),
{
    let k: usize = position(raw, 'e');
    let n: usize = raw.unicode_len();
    proof {
        lemma_position(raw@, 'e', 0);
    }
    if k == n {
        return String::from_str(raw);
    }
    let ghost tail = raw@.skip(k + 1);
    let first: usize = k + 1;
    let mut negative: bool = false;
    let mut from: usize = first;
    if first < n {
        let c = raw.get_char(first);
        assert(tail[0] == c);
        if c == '-' {
            negative = true;
            from = first + 1;
        } else if c == '+' {
            from = first + 1;
        }
    }
    assert(raw@.skip(from as int) =~= if from > first {
        tail.skip(1)
    } else {
        tail
    });
    let mut size: i64 = 0;
    match read_digits(raw, from) {
        Some(v) => {
            if negative || v < 2147483648 {
                size = v;
            }
        },
        None => {},
    }
    let minus: bool = negative && size > 0;
    assert(exponent_of(tail) == if minus {
        -(size as int)
    } else {
        size as int
    });
    let mut out = String::from_str(raw.substring_char(0, k));
    assert(out@ =~= raw@.take(k as int));
    out.append("e");
    if minus {
        out.append("-");
    } else {
        out.append("+");
    }
    if size < 10 {
        out.append("0");
    } else {
        out.append("");
    }
    out.append(decimal(size as usize).as_str());
    out
}

/// Variables, the scale first where the plot has one, and the value of each at every
/// point, as real and imaginary part.
#[derive(Debug)]
pub struct RawTable<S> {
    pub complex: bool,
    /// Name and type.
    pub vars: Vec<(String, &'static str)>,
    pub values: Vec<Vec<(S, S)>>,
}

/// A variable's name and type.
pub open spec fn variable(label: Seq<char>) -> (Seq<char>, Seq<char>) {
    (label, type_of(label))
}

/// The variables of the columns from `from` on, every `step`-th.
pub open spec fn variables(columns: Seq<Seq<char>>, from: int, step: int, count: nat) -> Seq<
    (Seq<char>, Seq<char>),
> {
    Seq::new(count, |k: int| variable(columns[from + k * step]))
}

/// Whether the name of a source is that of a current source: these begin with an
/// `I`, in either case.
pub open spec fn is_current_source(name: Seq<char>) -> bool {
    name.len() > 0 && (name[0] == 'i' || name[0] == 'I')
}

/// The variables of a plot.
pub open spec fn plot_vars(columns: Seq<Seq<char>>, plot: RawPlot) -> Seq<(Seq<char>, Seq<char>)> {
    match plot {
        RawPlot::OperatingPoint => variables(columns, 0, 1, columns.len()),
        RawPlot::Transient => seq![("time"@, "time"@)] + variables(columns, 0, 1, columns.len()),
        RawPlot::Dc => {
            let scale = if columns.len() > 0 && is_current_source(columns[0]) {
                ("i-sweep"@, "current"@)
            } else {
                ("v-sweep"@, "voltage"@)
            };
            seq![scale] + variables(
                columns,
                1,
                1,
                if columns.len() > 0 {
                    (columns.len() - 1) as nat
                } else {
                    0
                },
            )
        },
        RawPlot::Ac => seq![("frequency"@, "frequency"@)] + variables(
            columns,
            1,
            2,
            columns.len() / 2,
        ),
    }
}

/// A real row.
pub open spec fn real_row<S: Scalar>(row: Seq<S>) -> Seq<(S, S)> {
    Seq::new(row.len(), |k: int| (row[k], S::spec_zero()))
}

/// A row of magnitudes and phases as phasors, given the cosine and sine of each
/// phase.
pub open spec fn polar_row<S: Scalar>(row: Seq<S>, turns: Seq<(S, S)>) -> Seq<(S, S)> {
    seq![(row[0], S::spec_zero())] + Seq::new(
        turns.len(),
        |k: int|
            (
                row[1 + 2 * k].spec_times(turns[k].0),
                row[1 + 2 * k].spec_times(turns[k].1),
            ),
    )
}

/// The values of a plot at a point.
pub open spec fn plot_row<S: Scalar>(
    out: &SimOutput<S>,
    plot: RawPlot,
    turns: Seq<Vec<(S, S)>>,
    i: int,
) -> Seq<(S, S)> {
    match plot {
        RawPlot::Transient => seq![(out.time->0@[i], S::spec_zero())] + real_row(out.rows@[i]@),
        RawPlot::Ac => polar_row(out.rows@[i]@, turns[i]@),
        _ => real_row(out.rows@[i]@),
    }
}

/// Whether a table can be plotted: a transient has a time per row; a frequency
/// response has a frequency and pairs of magnitude and phase, and the cosine and
/// sine of every phase.
pub open spec fn plottable<S: Scalar>(
    out: &SimOutput<S>,
    plot: RawPlot,
    turns: Seq<Vec<(S, S)>>,
) -> bool {
    &&& out.wf()
    &&& plot == RawPlot::Transient ==> (out.time matches Some(t) && t@.len() == out.rows@.len())
    &&& plot == RawPlot::Ac ==> {
        &&& out.columns@.len() % 2 == 1
        &&& turns.len() == out.rows@.len()
        &&& forall|i: int|
            0 <= i < turns.len() ==> (#[trigger] turns[i])@.len() == out.columns@.len() / 2
    }
}

/// Names and types of variables as sequences of characters.
pub open spec fn var_view(vars: Seq<(String, &'static str)>) -> Seq<(Seq<char>, Seq<char>)> {
    Seq::new(vars.len(), |k: int| (vars[k].0@, vars[k].1@))
}

fn push_vars(
    vars: &mut Vec<(String, &'static str)>,
    columns: &Vec<String>,
    from: usize,
    step: usize,
    count: usize,
)
    requires
        step == 1 || step == 2,
        from + count * step <= columns@.len() + step - 1,
        columns@.len() + 2 <= usize::MAX,
    ensures
        var_view(final(vars)@) == var_view(old(vars)@) + variables(
            texts(columns@),
            from as int,
            step as int,
            count as nat,
        ),
{
    let ghost start = vars@;
    let ghost names = texts(columns@);
    let mut k: usize = 0;
    let mut at: usize = from;
    assert(variables(names, from as int, step as int, 0) =~= Seq::<(Seq<char>, Seq<char>)>::empty());
    assert(var_view(vars@) =~= var_view(start) + variables(names, from as int, step as int, 0));
    assert(from + 0 * step == from);
    while k < count
        invariant
            k <= count,
            step == 1 || step == 2,
            at == from + k * step,
            from + count * step <= columns@.len() + step - 1,
            columns@.len() + 2 <= usize::MAX,
            names == texts(columns@),
            var_view(vars@) == var_view(start) + variables(
                names,
                from as int,
                step as int,
                k as nat,
            ),
        decreases count - k,
    {
        assert(k * step + step <= count * step) by (nonlinear_arith)
            requires
                k < count,
                step >= 0,
        ;
        assert((k + 1) * step == k * step + step) by (nonlinear_arith);
        let label = columns[at].as_str();
        let ghost before = vars@;
        vars.push((String::from_str(label), var_type(label)));
        proof {
            let done = variables(names, from as int, step as int, k as nat);
            let more = variables(names, from as int, step as int, (k + 1) as nat);
            assert(more =~= done.push(variable(names[at as int])));
            assert(var_view(vars@) =~= var_view(before).push(variable(names[at as int])));
            assert(var_view(vars@) =~= var_view(start) + more);
        }
        k = k + 1;
        at = at + step;
    }
}

fn push_real<S: Scalar>(out: &mut Vec<(S, S)>, row: &Vec<S>)
    ensures
        final(out)@ == old(out)@ + real_row(row@),
{
    let ghost start = out@;
    let ghost all = real_row(row@);
    let mut k: usize = 0;
    while k < row.len()
        invariant
            k <= row@.len(),
            all == real_row(row@),
            out@ == start + all.take(k as int),
        decreases row@.len() - k,
    {
        out.push((row[k], S::zero()));
        assert(all.take(k + 1) =~= all.take(k as int).push(all[k as int]));
        k = k + 1;
    }
    assert(all.take(k as int) =~= all);
}

fn make_polar<S: Scalar>(row: &Vec<S>, turns: &Vec<(S, S)>) -> (r: Vec<(S, S)>)
    requires
        row@.len() == 1 + 2 * turns@.len(),
    ensures
        r@ == polar_row(row@, turns@),
{
    let mut out: Vec<(S, S)> = Vec::new();
    out.push((row[0], S::zero()));
    let ghost all = polar_row(row@, turns@);
    assert(all.take(1) =~= out@);
    let total: usize = row.len();
    let mut k: usize = 0;
    while k < turns.len()
        invariant
            k <= turns@.len(),
            total == row@.len(),
            row@.len() == 1 + 2 * turns@.len(),
            all == polar_row(row@, turns@),
            out@ == all.take(1 + k),
        decreases turns@.len() - k,
    {
        let mag = row[1 + 2 * k];
        let (cos, sin) = turns[k];
        out.push((mag.times(cos), mag.times(sin)));
        assert(all.take(1 + k + 1) =~= all.take(1 + k).push(all[1 + k]));
        k = k + 1;
    }
    assert(all.take(1 + k) =~= all);
    out
}

/// Lay a result out for a plot, given the cosine and sine of every phase of a
/// frequency response.
pub fn build_table<S: Scalar>(out: &SimOutput<S>, plot: RawPlot, turns: &Vec<Vec<(S, S)>>) -> (r:
    RawTable<S>)
    requires
        plottable(out, plot, turns@),
        out.columns@.len() + 2 <= usize::MAX,
    ensures
        r.complex == (plot == RawPlot::Ac),
        var_view(r.vars@) == plot_vars(texts(out.columns@), plot),
        r.values@.len() == out.rows@.len(),
        forall|i: int|
            0 <= i < r.values@.len() ==> (#[trigger] r.values@[i])@ == plot_row(
                out,
                plot,
                turns@,
                i,
            ),
{
    let ghost names = texts(out.columns@);
    let width: usize = out.columns.len();
    let mut vars: Vec<(String, &'static str)> = Vec::new();
    match plot {
        RawPlot::OperatingPoint => {
            push_vars(&mut vars, &out.columns, 0, 1, width);
            assert(var_view(vars@) =~= variables(names, 0, 1, width as nat));
        },
        RawPlot::Transient => {
            vars.push((String::from_str("time"), "time"));
            assert(var_view(vars@) =~= seq![("time"@, "time"@)]);
            push_vars(&mut vars, &out.columns, 0, 1, width);
        },
        RawPlot::Dc => {
            let mut current: bool = false;
            if width > 0 {
                let label = out.columns[0].as_str();
                assert(names[0] == label@);
                if label.unicode_len() > 0 {
                    let c = label.get_char(0);
                    current = c == 'i' || c == 'I';
                }
            }
            if current {
                vars.push((String::from_str("i-sweep"), "current"));
                assert(var_view(vars@) =~= seq![("i-sweep"@, "current"@)]);
            } else {
                vars.push((String::from_str("v-sweep"), "voltage"));
                assert(var_view(vars@) =~= seq![("v-sweep"@, "voltage"@)]);
            }
            if width > 0 {
                push_vars(&mut vars, &out.columns, 1, 1, width - 1);
            }
            assert(var_view(vars@) =~= plot_vars(names, plot));
        },
        RawPlot::Ac => {
            vars.push((String::from_str("frequency"), "frequency"));
            assert(var_view(vars@) =~= seq![("frequency"@, "frequency"@)]);
            push_vars(&mut vars, &out.columns, 1, 2, width / 2);
        },
    }
    let mut values: Vec<Vec<(S, S)>> = Vec::new();
    let mut i: usize = 0;
    while i < out.rows.len()
        invariant
            i <= out.rows@.len(),
            plottable(out, plot, turns@),
            values@.len() == i,
            forall|j: int|
                0 <= j < i ==> (#[trigger] values@[j])@ == plot_row(out, plot, turns@, j),
        decreases out.rows@.len() - i,
    {
        assert(out.rows@[i as int]@.len() == out.columns@.len());
        match plot {
            RawPlot::Ac => {
                assert(turns@[i as int]@.len() == out.columns@.len() / 2);
                let row = make_polar(&out.rows[i], &turns[i]);
                values.push(row);
            },
            RawPlot::Transient => {
                let mut row: Vec<(S, S)> = Vec::new();
                match &out.time {
                    Some(t) => {
                        row.push((t[i], S::zero()));
                    },
                    None => {},
                }
                assert(row@ =~= seq![(out.time->0@[i as int], S::spec_zero())]);
                push_real(&mut row, &out.rows[i]);
                values.push(row);
            },
            _ => {
                let mut row: Vec<(S, S)> = Vec::new();
                push_real(&mut row, &out.rows[i]);
                assert(row@ =~= real_row(out.rows@[i as int]@));
                values.push(row);
            },
        }
        i = i + 1;
    }
    RawTable { complex: plot == RawPlot::Ac, vars, values }
}

/// The fixed date of a rawfile.
pub open spec fn raw_date() -> Seq<char> {
    "Thu Jan  1 00:00:00  1970"@
}

/// The command line of a rawfile, by which readers know the dialect.
pub open spec fn raw_command() -> Seq<char> {
    "hauksbee sim (ngspice-compatible rawfile)"@
}

/// The header of a rawfile.
pub open spec fn raw_header(
    title: Seq<char>,
    plot: RawPlot,
    complex: bool,
    vars: nat,
    points: nat,
) -> Seq<char> {
    "Title: "@ + title + "\nDate: "@ + raw_date() + "\nCommand: "@ + raw_command()
        + "\nPlotname: "@ + plot.spec_plotname() + "\nFlags: "@ + (if complex {
        "complex"@
    } else {
        "real"@
    }) + "\nNo. Variables: "@ + decimal_digits(vars) + "\nNo. Points: "@ + decimal_digits(points)
        + "\nVariables:\n"@
}

/// The lines of the first `count` variables.
pub open spec fn var_lines(vars: Seq<(Seq<char>, Seq<char>)>, count: nat) -> Seq<char>
    decreases count,
{
    if count == 0 {
        Seq::empty()
    } else {
        let (name, kind) = vars[count - 1];
        var_lines(vars, (count - 1) as nat) + "\t"@ + decimal_digits((count - 1) as nat) + "\t"@
            + name + "\t"@ + kind + "\n"@
    }
}

/// The lines of the first `count` values of a point.
pub open spec fn value_lines(
    point: nat,
    cells: Seq<(String, String)>,
    complex: bool,
    count: nat,
) -> Seq<char>
    decreases count,
{
    if count == 0 {
        Seq::empty()
    } else {
        let (re, im) = cells[count - 1];
        value_lines(point, cells, complex, (count - 1) as nat) + (if count == 1 {
            " "@ + decimal_digits(point) + "\t"@
        } else {
            "\t"@
        }) + re@ + (if complex {
            ","@ + im@
        } else {
            ""@
        }) + "\n"@
    }
}

/// The lines of the first `count` points, each followed by a blank line.
pub open spec fn point_lines(
    numbers: Seq<Vec<(String, String)>>,
    complex: bool,
    count: nat,
) -> Seq<char>
    decreases count,
{
    if count == 0 {
        Seq::empty()
    } else {
        let below = (count - 1) as nat;
        point_lines(numbers, complex, below) + value_lines(
            below,
            numbers[count - 1]@,
            complex,
            numbers[count - 1]@.len(),
        ) + "\n"@
    }
}

/// A rawfile.
pub open spec fn raw_form(
    title: Seq<char>,
    plot: RawPlot,
    complex: bool,
    vars: Seq<(Seq<char>, Seq<char>)>,
    numbers: Seq<Vec<(String, String)>>,
) -> Seq<char> {
    raw_header(title, plot, complex, vars.len(), numbers.len()) + var_lines(vars, vars.len())
        + "Values:\n"@ + point_lines(numbers, complex, numbers.len())
}

fn write_header<S: Scalar>(table: &RawTable<S>, plot: RawPlot, title: &str, points: usize) -> (r:
    String)
    ensures
        r@ == raw_header(title@, plot, table.complex, table.vars@.len(), points as nat),
{
    let mut s = String::from_str("Title: ");
    s.append(title);
    s.append("\nDate: ");
    s.append("Thu Jan  1 00:00:00  1970");
    s.append("\nCommand: ");
    s.append("hauksbee sim (ngspice-compatible rawfile)");
    s.append("\nPlotname: ");
    s.append(plot.plotname());
    s.append("\nFlags: ");
    if table.complex {
        s.append("complex");
    } else {
        s.append("real");
    }
    s.append("\nNo. Variables: ");
    s.append(decimal(table.vars.len()).as_str());
    s.append("\nNo. Points: ");
    s.append(decimal(points).as_str());
    s.append("\nVariables:\n");
    s
}

fn write_vars(s: &mut String, vars: &Vec<(String, &'static str)>)
    ensures
        final(s)@ == old(s)@ + var_lines(var_view(vars@), vars@.len()),
{
    let ghost head = s@;
    let ghost all = var_view(vars@);
    let mut i: usize = 0;
    assert(s@ =~= head + var_lines(all, 0));
    while i < vars.len()
        invariant
            i <= vars@.len(),
            all == var_view(vars@),
            s@ == head + var_lines(all, i as nat),
        decreases vars@.len() - i,
    {
        s.append("\t");
        s.append(decimal(i).as_str());
        s.append("\t");
        s.append(vars[i].0.as_str());
        s.append("\t");
        s.append(vars[i].1);
        s.append("\n");
        assert(all[i as int] == (vars@[i as int].0@, vars@[i as int].1@));
        assert(s@ =~= head + var_lines(all, (i + 1) as nat));
        i = i + 1;
    }
}

fn write_point(s: &mut String, point: usize, cells: &Vec<(String, String)>, complex: bool)
    ensures
        final(s)@ == old(s)@ + value_lines(point as nat, cells@, complex, cells@.len()),
{
    let ghost head = s@;
    let mut k: usize = 0;
    assert(s@ =~= head + value_lines(point as nat, cells@, complex, 0));
    while k < cells.len()
        invariant
            k <= cells@.len(),
            s@ == head + value_lines(point as nat, cells@, complex, k as nat),
        decreases cells@.len() - k,
    {
        let ghost before = s@;
        if k == 0 {
            s.append(" ");
            s.append(decimal(point).as_str());
            s.append("\t");
        } else {
            s.append("\t");
        }
        s.append(cells[k].0.as_str());
        if complex {
            s.append(",");
            s.append(cells[k].1.as_str());
        } else {
            s.append("");
        }
        s.append("\n");
        assert(s@ =~= head + value_lines(point as nat, cells@, complex, (k + 1) as nat));
        k = k + 1;
    }
}

/// Write a table as a rawfile, given the text of every value's real and imaginary
/// part.
pub fn write_ascii_rawfile<S: Scalar>(
    table: &RawTable<S>,
    plot: RawPlot,
    title: &str,
    numbers: &Vec<Vec<(String, String)>>,
) -> (r: String)
    ensures
        r@ == raw_form(title@, plot, table.complex, var_view(table.vars@), numbers@),
{
    let mut s = write_header(table, plot, title, numbers.len());
    write_vars(&mut s, &table.vars);
    s.append("Values:\n");
    let ghost head = s@;
    let mut i: usize = 0;
    assert(s@ =~= head + point_lines(numbers@, table.complex, 0));
    while i < numbers.len()
        invariant
            i <= numbers@.len(),
            s@ == head + point_lines(numbers@, table.complex, i as nat),
        decreases numbers@.len() - i,
    {
        write_point(&mut s, i, &numbers[i], table.complex);
        s.append("\n");
        assert(s@ =~= head + point_lines(numbers@, table.complex, (i + 1) as nat));
        i = i + 1;
    }
    s
}

/// A decimal number reads back as itself: digits alone, without a leading zero.
pub proof fn law_a_decimal_reads_back(n: nat)
    ensures
        all_digits(decimal_digits(n)),
        digits_value(decimal_digits(n)) == n,
        n > 0 ==> decimal_digits(n)[0] != '0',
    decreases n,
{
    let d = decimal_digits(n);
    if n < 10 {
        assert(d.drop_last() =~= Seq::empty());
        assert(digit_value(digit_char(n as int)) == n);
        reveal_with_fuel(digits_value, 2);
    } else {
        law_a_decimal_reads_back(n / 10);
        let rest = decimal_digits(n / 10);
        assert(d.drop_last() =~= rest);
        assert(digit_value(digit_char((n % 10) as int)) == n % 10);
        assert(d[0] == rest[0]);
    }
}

proof fn lemma_leading_zero(s: Seq<char>)
    ensures
        digits_value(seq!['0'] + s) == digits_value(s),
    decreases s.len(),
{
    let t = seq!['0'] + s;
    if s.len() == 0 {
        assert(t.drop_last() =~= Seq::empty());
        reveal_with_fuel(digits_value, 2);
    } else {
        lemma_leading_zero(s.drop_last());
        assert(t.drop_last() =~= seq!['0'] + s.drop_last());
        assert(t.last() == s.last());
    }
}

/// A number keeps its mantissa and its exponent: what stands before the exponent is not
/// touched, and the padded exponent, signed and of two digits at least, reads as the one
/// it replaces.
pub proof fn law_a_padded_exponent_reads_the_same(raw: Seq<char>)
    ensures
        ({
            let k = position_from(raw, 'e', 0);
            let out = padded(raw);
            if k == raw.len() {
                out == raw
            } else {
                &&& out.take(k + 1) == raw.take(k + 1)
                &&& out.len() >= k + 4
                &&& out[k + 1] == '+' || out[k + 1] == '-'
                &&& exponent_of(out.skip(k + 1)) == exponent_of(raw.skip(k + 1))
            }
        }),
{
    lemma_position(raw, 'e', 0);
    let k = position_from(raw, 'e', 0);
    if k < raw.len() {
        reveal_strlit("e");
        reveal_strlit("-");
        reveal_strlit("+");
        reveal_strlit("0");
        reveal_strlit("");
        let e = exponent_of(raw.skip(k + 1));
        let size = if e < 0 {
            -e
        } else {
            e
        };
        let d = decimal_digits(size as nat);
        law_a_decimal_reads_back(size as nat);
        lemma_leading_zero(d);
        let pad = if size < 10 {
            seq!['0']
        } else {
            Seq::empty()
        };
        let digits = pad + d;
        let out = padded(raw);
        let tail = out.skip(k + 1);
        let sign = if e < 0 {
            seq!['-']
        } else {
            seq!['+']
        };
        assert(out =~= raw.take(k) + seq!['e'] + sign + digits);
        assert(tail =~= sign + digits);
        assert(tail.skip(1) =~= digits);
        assert(size >= 10 ==> digits =~= d);
        assert(all_digits(digits)) by {
            assert forall|i: int| 0 <= i < digits.len() implies '0' <= #[trigger] digits[i]
                <= '9' by {
                if i >= pad.len() {
                    assert(digits[i] == d[i - pad.len()]);
                }
            }
        }
        assert(digits_value(digits) == size);
        assert(out.take(k + 1) =~= raw.take(k + 1)) by {
            assert(raw[k] == 'e');
        }
        if size >= 10 {
            law_a_decimal_reads_back((size / 10) as nat);
        }
    }
}

/// A phasor keeps its magnitude, where the cosine and sine of its phase square to one.
pub proof fn law_a_phasor_keeps_its_magnitude<S: Scalar>(
    row: Seq<S>,
    turns: Seq<(S, S)>,
    k: int,
)
    requires
        S::exact(),
        0 <= k < turns.len(),
        turns[k].0.spec_times(turns[k].0).spec_plus(turns[k].1.spec_times(turns[k].1))
            == S::spec_int(1),
    ensures
        ({
            let (re, im) = polar_row(row, turns)[k + 1];
            re.spec_times(re).spec_plus(im.spec_times(im)) == row[1 + 2 * k].spec_times(
                row[1 + 2 * k],
            )
        }),
        polar_row(row, turns)[0] == (row[0], S::spec_zero()),
        polar_row(row, turns).len() == turns.len() + 1,
{
    let m = row[1 + 2 * k];
    let (c, s) = turns[k];
    lemma_square_of_product(m, c);
    lemma_square_of_product(m, s);
    let q = m.spec_times(m);
    lemma_product(q, c.spec_times(c), s.spec_times(s));
    S::laws(q, q, q);
}

/// `(m * c) * (m * c) == (m * m) * (c * c)`.
proof fn lemma_square_of_product<S: Scalar>(m: S, c: S)
    requires
        S::exact(),
    ensures
        m.spec_times(c).spec_times(m.spec_times(c)) == m.spec_times(m).spec_times(
            c.spec_times(c),
        ),
{
    S::laws(m, c, m.spec_times(c));
    S::laws(c, m, c);
    S::laws(m, c, c);
    S::laws(m, m, c.spec_times(c));
}

} // verus!
