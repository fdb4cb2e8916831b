use vstd::prelude::*;
use vstd::arithmetic::div_mod::lemma_fundamental_div_mod_converse;
use vstd::string::StringExecFns;
use crate::render::same_opts;
use crate::render::RenderOpts;
use crate::render::Renderer;

verus! {

/// One vertical line of the time grid.
#[derive(Debug, PartialEq, Eq, Structural, Clone, Copy)]
pub struct GridLine {
    /// Where the line stands, in microseconds.
    pub time: i128,
    /// A major line carries a label; a minor one is drawn lighter, without.
    pub major: bool,
}

/// The greatest multiple of `unit` that is not above `t`.
pub open spec fn round_down(t: int, unit: int) -> int {
    t - t % unit
}

/// The least multiple of `unit` that is not below `t`.
pub open spec fn round_up(t: int, unit: int) -> int {
    if t % unit == 0 {
        t
    } else {
        t - t % unit + unit
    }
}

/// The remainder of `t` by `unit`, never negative.
pub fn floor_rem(t: i64, unit: u64) -> (r: u64)
    requires
        unit > 0,
    ensures
        r == (t as int) % (unit as int),
        r < unit,
{
    if t >= 0 {
        (t as u64) % unit
    } else {
        let a: u64 = ((-(t as i128)) as u64);
        let r: u64 = a % unit;
        let ghost q = (a / unit) as int;
        proof {
            assert(a as int == q * (unit as int) + (r as int)) by (nonlinear_arith)
                requires
                    q == (a as int) / (unit as int),
                    r as int == (a as int) % (unit as int),
                    unit > 0,
            ;
        }
        if r == 0 {
            proof {
                assert((t as int) == (-q) * (unit as int) + 0) by (nonlinear_arith)
                    requires
                        a as int == q * (unit as int) + 0,
                        t as int == -(a as int),
                ;
                lemma_fundamental_div_mod_converse(t as int, unit as int, -q, 0);
            }
            0
        } else {
            proof {
                assert((t as int) == (-q - 1) * (unit as int) + (unit - r)) by (nonlinear_arith)
                    requires
                        a as int == q * (unit as int) + (r as int),
                        t as int == -(a as int),
                ;
                lemma_fundamental_div_mod_converse(t as int, unit as int, -q - 1, unit - r);
            }
            unit - r
        }
    }
}

/// Whether a grid line stands at `t`: counted from the major line at or
/// before it, `t` lies a whole number of steps on.
pub open spec fn on_grid(t: int, unit: int, step: int) -> bool {
    (t % unit) % step == 0
}

/// Whether one of the lines stands at `t`.
pub open spec fn has_line(lines: Seq<GridLine>, t: int) -> bool {
    exists|k: int| 0 <= k < lines.len() && (#[trigger] lines[k]).time == t
}

/// `lines` is the grid between `first` and `last`: from `first` rounded down
/// to a major line up to `last` rounded up to one, a line stands on every
/// multiple of the major distance and at every step after it, from left to
/// right; the lines on a multiple of the major distance are major.
pub open spec fn is_grid(opts: RenderOpts, first: int, last: int, lines: Seq<GridLine>) -> bool {
    let unit = opts.us_per_line as int;
    let step = opts.spec_step();
    let begin = round_down(first, unit);
    let end = round_up(last, unit);
    &&& forall|k: int|
        0 <= k < lines.len() ==> {
            &&& begin <= (#[trigger] lines[k]).time <= end
            &&& on_grid(lines[k].time as int, unit, step)
            &&& lines[k].major == ((lines[k].time as int) % unit == 0)
        }
    &&& forall|k: int, l: int|
        0 <= k < l < lines.len() ==> (#[trigger] lines[k]).time < (#[trigger] lines[l]).time
    &&& forall|t: int| begin <= t <= end && #[trigger] on_grid(t, unit, step) ==> has_line(lines, t)
}

impl Renderer {
    /// The lines of the time grid for a box from `first` to `last`.
    pub fn render_lines(&self, first: i64, last: i64) -> (lines: Vec<GridLine>)
        requires
            self.opts.grid_ok(),
        ensures
            is_grid(self.opts, first as int, last as int, lines@),
    {
        let unit: u64 = self.opts.us_per_line;
        let step: u64 = unit / (self.opts.sublines as u64);
        assert(1 <= step <= unit) by (nonlinear_arith)
            requires
                step == unit / (self.opts.sublines as u64),
                0 < self.opts.sublines as u64 <= unit,
        ;
        let begin: i128 = (first as i128) - (floor_rem(first, unit) as i128);
        let over: u64 = floor_rem(last, unit);
        let end: i128 = if over == 0 {
            last as i128
        } else {
            (last as i128) - (over as i128) + (unit as i128)
        };
        // Distance of the line at hand from the last major line at or before it.
        let mut phase: u64 = 0;
        let mut x: i128 = begin;
        let mut lines: Vec<GridLine> = Vec::new();
        let ghost mut q: int = (first as int) / (unit as int);
        let ghost mut m: int = 0;
        proof {
            assert(first as int == q * (unit as int) + (first as int) % (unit as int))
                by (nonlinear_arith)
                requires
                    q == (first as int) / (unit as int),
                    unit > 0,
            ;
            assert(0 * (step as int) == 0) by (nonlinear_arith);
        }
        while x <= end
            invariant
                1 <= step <= unit,
                step == self.opts.spec_step(),
                unit == self.opts.us_per_line,
                begin == round_down(first as int, unit as int),
                end == round_up(last as int, unit as int),
                -0x1_8000_0000_0000_0000 <= begin,
                end <= 0x1_8000_0000_0000_0000,
                begin <= x,
                phase < unit,
                x == q * (unit as int) + phase,
                phase == m * (step as int),
                0 <= m,
                forall|k: int|
                    0 <= k < lines@.len() ==> {
                        &&& begin <= (#[trigger] lines@[k]).time < x
                        &&& lines@[k].time <= end
                        &&& on_grid(lines@[k].time as int, unit as int, step as int)
                        &&& lines@[k].major == ((lines@[k].time as int) % (unit as int) == 0)
                    },
                forall|k: int, l: int|
                    0 <= k < l < lines@.len() ==> (#[trigger] lines@[k]).time < (
                    #[trigger] lines@[l]).time,
                forall|t: int|
                    begin <= t < x && #[trigger] on_grid(t, unit as int, step as int) ==> has_line(
                        lines@,
                        t,
                    ),
            decreases end + unit - x,
        {
            let ghost before = lines@;
            let ghost x0 = x as int;
            let ghost phase0 = phase as int;
            proof {
                lemma_fundamental_div_mod_converse(x0, unit as int, q, phase0);
                lemma_fundamental_div_mod_converse(phase0, step as int, m, 0);
            }
            lines.push(GridLine { time: x, major: phase == 0 });
            let room: u64 = unit - phase;
            let ahead: u64 = if step < room {
                step
            } else {
                room
            };
            x = x + (ahead as i128);
            proof {
                assert(lines@[before.len() as int].time == x0);
                assert forall|t: int|
                    begin <= t < x && #[trigger] on_grid(t, unit as int, step as int) implies has_line(
                    lines@,
                    t,
                ) by {
                    if t < x0 {
                        assert(has_line(before, t));
                        let k = choose|k: int| 0 <= k < before.len() && (#[trigger] before[k]).time == t;
                        assert(lines@[k].time == t);
                    } else if t > x0 {
                        let d = t - x0;
                        lemma_fundamental_div_mod_converse(t, unit as int, q, phase0 + d);
                        lemma_fundamental_div_mod_converse(phase0 + d, step as int, m, d);
                        assert(false);
                    }
                }
            }
            if step < room {
                phase = phase + step;
                proof {
                    assert((m + 1) * (step as int) == m * (step as int) + step) by (nonlinear_arith);
                    m = m + 1;
                }
            } else {
                phase = 0;
                proof {
                    assert((q + 1) * (unit as int) == q * (unit as int) + unit) by (nonlinear_arith);
                    assert(0 * (step as int) == 0) by (nonlinear_arith);
                    q = q + 1;
                    m = 0;
                }
            }
        }
        lines
    }
}

/// Where the box does not end before it begins, the grid begins and ends
/// with a major line: the bounds of the box rounded down and up.
pub proof fn lemma_grid_ends(opts: RenderOpts, first: int, last: int, lines: Seq<GridLine>)
    requires
        opts.grid_ok(),
        first <= last,
        is_grid(opts, first, last, lines),
    ensures
        lines.len() > 0,
        lines[0].time == round_down(first, opts.us_per_line as int),
        lines.last().time == round_up(last, opts.us_per_line as int),
        lines[0].major,
        lines.last().major,
        lines[0].time <= first,
        last <= lines.last().time,
{
    let unit = opts.us_per_line as int;
    let step = opts.spec_step();
    let begin = round_down(first, unit);
    let end = round_up(last, unit);
    assert(step >= 1) by (nonlinear_arith)
        requires
            step == unit / (opts.sublines as int),
            0 < opts.sublines as int <= unit,
    ;
    let qf = first / unit;
    assert(first == qf * unit + first % unit) by (nonlinear_arith)
        requires
            qf == first / unit,
            unit > 0,
    ;
    lemma_fundamental_div_mod_converse(begin, unit, qf, 0);
    let ql = last / unit;
    assert(last == ql * unit + last % unit) by (nonlinear_arith)
        requires
            ql == last / unit,
            unit > 0,
    ;
    if last % unit == 0 {
    } else {
        assert(end == (ql + 1) * unit + 0) by (nonlinear_arith)
            requires
                end == last - last % unit + unit,
                last == ql * unit + last % unit,
        ;
        lemma_fundamental_div_mod_converse(end, unit, ql + 1, 0);
    }
    assert(begin % unit == 0);
    assert(end % unit == 0);
    assert(0int % step == 0) by (nonlinear_arith)
        requires
            step >= 1,
    ;
    assert(on_grid(begin, unit, step));
    assert(on_grid(end, unit, step));
    assert(has_line(lines, begin));
    assert(has_line(lines, end));
    let kb = choose|k: int| 0 <= k < lines.len() && (#[trigger] lines[k]).time == begin;
    let ke = choose|k: int| 0 <= k < lines.len() && (#[trigger] lines[k]).time == end;
    if kb > 0 {
        assert(lines[0].time < lines[kb].time);
    }
    if ke < lines.len() - 1 {
        assert(lines[ke].time < lines[lines.len() - 1].time);
    }
}

/// The character of the digit `d`.
pub open spec fn digit(d: int) -> char {
    seq!['0', '1', '2', '3', '4', '5', '6', '7', '8', '9'][d]
}

/// The decimal digits of `n`, without leading zeros.
pub open spec fn decimal(n: nat) -> Seq<char>
    decreases n,
{
    if n < 10 {
        seq![digit(n as int)]
    } else {
        decimal(n / 10).push(digit((n % 10) as int))
    }
}

/// The label of a grid line at `time`: the whole seconds, a point, and the
/// microseconds beyond them, with a minus sign before a time below zero.
pub open spec fn line_label(time: int) -> Seq<char> {
    let size = if time < 0 { -time } else { time };
    let sign = if time < 0 { seq!['-'] } else { Seq::<char>::empty() };
    sign + decimal((size / 1_000_000) as nat) + seq!['.'] + decimal((size % 1_000_000) as nat)
}

fn digit_text(d: u8) -> (text: &'static str)
    requires
        d < 10,
    ensures
        text@ == seq![digit(d as int)],
{
    proof {
        reveal_strlit("0");
        reveal_strlit("1");
        reveal_strlit("2");
        reveal_strlit("3");
        reveal_strlit("4");
        reveal_strlit("5");
        reveal_strlit("6");
        reveal_strlit("7");
        reveal_strlit("8");
        reveal_strlit("9");
    }
    let text = match d {
        0 => "0",
        1 => "1",
        2 => "2",
        3 => "3",
        4 => "4",
        5 => "5",
        6 => "6",
        7 => "7",
        8 => "8",
        _ => "9",
    };
    assert(text@ =~= seq![digit(d as int)]);
    text
}

/// Writes `n` in decimal digits.
pub fn to_decimal(n: u128) -> (text: String)
    ensures
        text@ == decimal(n as nat),
{
    let mut rest: u128 = n / 10;
    let mut text = String::from_str(digit_text((n % 10) as u8));
    proof {
        if n >= 10 {
            assert(decimal(n as nat) =~= decimal(rest as nat) + text@);
        }
    }
    while rest > 0
        invariant
            rest > 0 ==> decimal(n as nat) == decimal(rest as nat) + text@,
            rest == 0 ==> decimal(n as nat) == text@,
        decreases rest,
    {
        let ghost before = text@;
        let ghost d = digit((rest % 10) as int);
        text = String::from_str(digit_text((rest % 10) as u8)).concat(text.as_str());
        proof {
            assert(text@ =~= seq![d] + before);
            if rest < 10 {
                assert(decimal(rest as nat) + before =~= text@);
            } else {
                assert(decimal((rest / 10) as nat).push(d) + before =~= decimal((rest / 10) as nat)
                    + text@);
            }
        }
        rest = rest / 10;
    }
    text
}

/// The text that labels a grid line at `time`.
pub fn render_line_time(time: i128) -> (label: String)
    ensures
        label@ == line_label(time as int),
{
    let size: u128 = if time < 0 {
        ((-(time + 1)) as u128) + 1
    } else {
        time as u128
    };
    let mut label = if time < 0 {
        String::from_str("-")
    } else {
        String::new()
    };
    let seconds = to_decimal(size / 1_000_000);
    let micros = to_decimal(size % 1_000_000);
    proof {
        reveal_strlit("-");
        reveal_strlit(".");
        assert("-"@ =~= seq!['-']);
        assert("."@ =~= seq!['.']);
    }
    label.append(seconds.as_str());
    label.append(".");
    label.append(micros.as_str());
    label
}

/// Up to place `k`, two grids for the same box and step agree.
pub proof fn lemma_grid_prefix(
    oa: RenderOpts,
    ob: RenderOpts,
    first: int,
    last: int,
    a: Seq<GridLine>,
    b: Seq<GridLine>,
    k: int,
)
    requires
        same_opts(oa, ob),
        is_grid(oa, first, last, a),
        is_grid(ob, first, last, b),
        0 <= k <= a.len(),
        k <= b.len(),
    ensures
        forall|i: int| 0 <= i < k ==> a[i].time == b[i].time,
    decreases k,
{
    if k > 0 {
        lemma_grid_prefix(oa, ob, first, last, a, b, k - 1);
        let x = a[k - 1].time as int;
        let y = b[k - 1].time as int;
        assert(on_grid(x, ob.us_per_line as int, ob.spec_step()));
        assert(on_grid(y, oa.us_per_line as int, oa.spec_step()));
        assert(has_line(b, x));
        assert(has_line(a, y));
        let m = choose|m: int| 0 <= m < b.len() && (#[trigger] b[m]).time == x;
        let n = choose|n: int| 0 <= n < a.len() && (#[trigger] a[n]).time == y;
        if m < k - 1 {
            assert(a[m].time == b[m].time);
            assert(a[m].time < a[k - 1].time);
            assert(false);
        }
        if n < k - 1 {
            assert(a[n].time == b[n].time);
            assert(b[n].time < b[k - 1].time);
            assert(false);
        }
        if m > k - 1 && n > k - 1 {
            assert(b[k - 1].time < b[m].time);
            assert(a[k - 1].time < a[n].time);
            assert(false);
        }
    }
}

/// The grid is decided by the options and the box.
pub proof fn lemma_grid_determined(
    oa: RenderOpts,
    ob: RenderOpts,
    first: int,
    last: int,
    a: Seq<GridLine>,
    b: Seq<GridLine>,
)
    requires
        same_opts(oa, ob),
        is_grid(oa, first, last, a),
        is_grid(ob, first, last, b),
    ensures
        a == b,
{
    let k = if a.len() <= b.len() { a.len() as int } else { b.len() as int };
    lemma_grid_prefix(oa, ob, first, last, a, b, k);
    if a.len() < b.len() {
        let y = b[k].time as int;
        assert(on_grid(y, oa.us_per_line as int, oa.spec_step()));
        assert(has_line(a, y));
        let n = choose|n: int| 0 <= n < a.len() && (#[trigger] a[n]).time == y;
        assert(a[n].time == b[n].time);
        assert(b[n].time < b[k].time);
        assert(false);
    }
    if b.len() < a.len() {
        let x = a[k].time as int;
        assert(on_grid(x, ob.us_per_line as int, ob.spec_step()));
        assert(has_line(b, x));
        let m = choose|m: int| 0 <= m < b.len() && (#[trigger] b[m]).time == x;
        assert(a[m].time == b[m].time);
        assert(a[m].time < a[k].time);
        assert(false);
    }
    assert forall|i: int| 0 <= i < a.len() implies a[i] == b[i] by {
        assert(a[i].time == b[i].time);
        assert(a[i].major == b[i].major);
    }
    assert(a =~= b);
}

} // verus!
