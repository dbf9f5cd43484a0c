//! What a run says of itself: sizes, counts and durations as people say them, the
//! lines that stay, and the one line that is drawn over and over.

use crate::text;
use vstd::prelude::*;

verus! {

/// Thousands separators, because every count here is in the millions.
pub fn commas(n: u64) -> (out: String)
    ensures
        out@ == text::grouped(n as nat, ','),
{
    let mut out: String = String::new();
    text::put_grouped(&mut out, n, ',');
    assert(out@ =~= text::grouped(n as nat, ','));
    out
}

/// A text cut to `n` columns, the last of them an ellipsis.
pub open spec fn clipped(s: Seq<char>, n: nat) -> Seq<char> {
    if s.len() <= n {
        s
    } else if n == 0 {
        "…"@
    } else {
        s.take(n - 1) + "…"@
    }
}

/// Cuts a text to `n` columns, so that a long label cannot wrap the line.
pub fn clip(s: &str, n: usize) -> (out: String)
    ensures
        out@ == clipped(s@, n as nat),
{
    let t: Vec<char> = text::chars(s);
    if t.len() <= n {
        return s.to_owned();
    }
    let keep: usize = if n == 0 {
        0
    } else {
        n - 1
    };
    let mut out: String = text::string_of(&t, 0, keep);
    out.push_str("…");
    assert(out@ =~= clipped(s@, n as nat)) by {
        assert(s@.subrange(0, keep as int) =~= s@.take(keep as int));
    }
    out
}

/// `n / d` to the nearest whole number, and to the even one of two equally near.
pub open spec fn nearest(n: nat, d: nat) -> nat {
    let q = n / d;
    let r = n % d;
    if 2 * r < d || (2 * r == d && q % 2 == 0) {
        q
    } else {
        q + 1
    }
}

/// The distance of the numbers with 53 significant bits around `n`.
pub open spec fn grain(n: nat) -> nat
    decreases n,
{
    if n < 0x20_0000_0000_0000 {
        1
    } else {
        2 * grain(n / 2)
    }
}

/// `n` with 53 significant bits, which is what a size is divided with.
pub open spec fn rounded(n: nat) -> nat {
    nearest(n, grain(n)) * grain(n)
}

/// A size in units of `scale` bytes, with one digit behind the point.
pub open spec fn in_units(n: nat, scale: nat, name: Seq<char>) -> Seq<char> {
    let tenths = nearest(10 * rounded(n), scale);
    text::decimal(tenths / 10) + "."@ + text::decimal(tenths % 10) + " "@ + name
}

/// A size as people say it.
pub open spec fn size(n: nat) -> Seq<char> {
    if n >= 0x100_0000_0000 {
        in_units(n, 0x100_0000_0000, "TB"@)
    } else if n >= 0x4000_0000 {
        in_units(n, 0x4000_0000, "GB"@)
    } else if n >= 0x10_0000 {
        in_units(n, 0x10_0000, "MB"@)
    } else if n >= 0x400 {
        in_units(n, 0x400, "kB"@)
    } else {
        text::decimal(n) + " B"@
    }
}

fn nearest_of(n: u128, d: u128) -> (r: u128)
    requires
        d > 0,
        d <= 0x1_0000_0000_0000_0000,
        n < 0x100_0000_0000_0000_0000,
    ensures
        r == nearest(n as nat, d as nat),
        r <= n + 1,
{
    let q: u128 = n / d;
    let r: u128 = n % d;
    assert(q <= n) by (nonlinear_arith)
        requires
            q == n / d,
            d > 0,
    ;
    if 2 * r < d || (2 * r == d && q % 2 == 0) {
        q
    } else {
        q + 1
    }
}

proof fn lemma_grain(n: nat)
    requires
        n < 0x1_0000_0000_0000_0000,
    ensures
        1 <= grain(n) <= 2048,
    decreases n,
{
    reveal_with_fuel(grain, 13);
}

fn rounded_of(n: u64) -> (r: u128)
    ensures
        r == rounded(n as nat),
        r <= 0x2_0000_0000_0000_0000,
{
    proof {
        lemma_grain(n as nat);
    }
    let mut rest: u64 = n;
    let mut step: u128 = 1;
    while rest >= 0x20_0000_0000_0000
        invariant
            step * grain(rest as nat) == grain(n as nat),
            1 <= step <= 2048,
            grain(n as nat) <= 2048,
            1 <= grain(rest as nat),
        decreases rest,
    {
        proof {
            lemma_grain(rest as nat);
            lemma_grain((rest / 2) as nat);
            let g = grain((rest / 2) as nat);
            assert((2 * step) * g == step * (2 * g)) by (nonlinear_arith);
            assert(2 * step <= (2 * step) * g) by (nonlinear_arith)
                requires
                    g >= 1,
                    step >= 1,
            ;
        }
        step = step * 2;
        rest = rest / 2;
    }
    assert(grain(rest as nat) == 1);
    assert(step * 1 == step);
    let q: u128 = nearest_of(n as u128, step);
    assert(q * step <= n + step) by (nonlinear_arith)
        requires
            q == nearest(n as nat, step as nat),
            step >= 1,
    ;
    q * step
}

fn units(n: u64, scale: u128, name: &str) -> (out: String)
    requires
        0x400 <= scale <= 0x100_0000_0000,
    ensures
        out@ == in_units(n as nat, scale as nat, name@),
{
    let whole: u128 = rounded_of(n);
    let tenths: u128 = nearest_of(10 * whole, scale);
    assert(tenths / 10 <= 0x1000_0000_0000_0000) by (nonlinear_arith)
        requires
            tenths == nearest((10 * whole) as nat, scale as nat),
            whole <= 0x2_0000_0000_0000_0000,
            scale >= 0x400,
    ;
    let mut out: String = text::number((tenths / 10) as u64);
    out.push_str(".");
    text::put_decimal(&mut out, (tenths % 10) as u64);
    out.push_str(" ");
    out.push_str(name);
    out
}

/// Sizes as people say them. Everything here is between a kilobyte and a terabyte.
pub fn bytes(n: u64) -> (out: String)
    ensures
        out@ == size(n as nat),
{
    if n >= 0x100_0000_0000 {
        units(n, 0x100_0000_0000, "TB")
    } else if n >= 0x4000_0000 {
        units(n, 0x4000_0000, "GB")
    } else if n >= 0x10_0000 {
        units(n, 0x10_0000, "MB")
    } else if n >= 0x400 {
        units(n, 0x400, "kB")
    } else {
        let mut out: String = text::number(n);
        out.push_str(" B");
        out
    }
}

/// A duration as people say it: `short` is the whole of it in seconds, with a tenth.
pub open spec fn duration(whole: nat, short: Seq<char>) -> Seq<char> {
    if whole < 60 {
        short + "s"@
    } else if whole < 3600 {
        text::decimal(whole / 60) + "m "@ + text::two_digits(whole % 60) + "s"@
    } else {
        text::decimal(whole / 3600) + "h "@ + text::two_digits(whole % 3600 / 60) + "m"@
    }
}

fn put_two_digits(out: &mut String, n: u64)
    ensures
        final(out)@ == old(out)@ + text::two_digits(n as nat),
{
    if n < 10 {
        out.push('0');
    }
    text::put_decimal(out, n);
    assert(out@ =~= old(out)@ + text::two_digits(n as nat));
}

/// Durations as people say them, from a tenth of a second to hours: `whole` seconds,
/// and the same with a tenth in `short`.
pub fn secs(whole: u64, short: &str) -> (out: String)
    ensures
        out@ == duration(whole as nat, short@),
{
    if whole < 60 {
        let mut out: String = short.to_owned();
        out.push_str("s");
        out
    } else if whole < 3600 {
        let mut out: String = text::number(whole / 60);
        out.push_str("m ");
        put_two_digits(&mut out, whole % 60);
        out.push_str("s");
        out
    } else {
        let mut out: String = text::number(whole / 3600);
        out.push_str("h ");
        put_two_digits(&mut out, whole % 3600 / 60);
        out.push_str("m");
        out
    }
}

/// Which item of how many a line is about: `[ 3/49] name`.
pub open spec fn item_text(i: nat, n: nat, name: Seq<char>) -> Seq<char> {
    "["@ + text::right(text::decimal(i + 1), text::decimal(n).len()) + "/"@ + text::decimal(n) + "] "@ + text::left(
        name,
        18,
    )
}

/// The front of a line about one item of many, so that a long run always says where
/// it is.
pub fn item(i: usize, n: usize, name: &str) -> (out: String)
    requires
        i < usize::MAX,
    ensures
        out@ == item_text(i as nat, n as nat, name@),
{
    let all: String = text::number(n as u64);
    let width: usize = text::chars(all.as_str()).len();
    let at: String = text::number((i + 1) as u64);
    let mut out: String = "[".to_owned();
    text::put_right(&mut out, at.as_str(), width);
    out.push_str("/");
    out.push_str(all.as_str());
    out.push_str("] ");
    text::put_left(&mut out, name, 18);
    out
}

/// The line that opens a stage.
fn banner(name: &str, detail: &str) -> (out: String)
    ensures
        out@ == "\n==> "@ + name@ + "  "@ + detail@,
{
    let mut out: String = "\n==> ".to_owned();
    out.push_str(name);
    out.push_str("  ");
    out.push_str(detail);
    out
}

/// The line that closes a stage.
fn closing(name: &str, took: &str) -> (out: String)
    ensures
        out@ == "<== "@ + name@ + "  ok  "@ + took@,
{
    let mut out: String = "<== ".to_owned();
    out.push_str(name);
    out.push_str("  ok  ");
    out.push_str(took);
    out
}

/// A line under a stage.
pub fn line(msg: &str) -> (out: String)
    ensures
        out@ == "    "@ + msg@,
{
    let mut out: String = "    ".to_owned();
    out.push_str(msg);
    out
}

/// A line under a stage with the time that the thing took, in a column of its own.
pub fn timed(msg: &str, took: &str) -> (out: String)
    ensures
        out@ == "    "@ + text::left(msg@, 58) + " "@ + text::right(took@, 9),
{
    let mut out: String = "    ".to_owned();
    text::put_left(&mut out, msg, 58);
    out.push_str(" ");
    text::put_right(&mut out, took, 9);
    out
}

/// A warning.
pub fn warning(msg: &str) -> (out: String)
    ensures
        out@ == "    ! "@ + msg@,
{
    let mut out: String = "    ! ".to_owned();
    out.push_str(msg);
    out
}

/// How much longer a piece of work takes, as far as it can be told.
pub enum Eta {
    /// Too little is done to tell.
    Estimating,
    /// Everything is done.
    Finishing,
    /// So much is left.
    Left(String),
}

impl Eta {
    /// What is said of it.
    pub open spec fn words(self) -> Seq<char> {
        match self {
            Eta::Estimating => "estimating"@,
            Eta::Finishing => "finishing"@,
            Eta::Left(left) => "~"@ + left@ + " left"@,
        }
    }

    /// What is said of it.
    pub fn text(&self) -> (out: String)
        ensures
            out@ == self.words(),
    {
        match self {
            Eta::Estimating => "estimating".to_owned(),
            Eta::Finishing => "finishing".to_owned(),
            Eta::Left(left) => {
                let mut out: String = "~".to_owned();
                out.push_str(left.as_str());
                out.push_str(" left");
                out
            },
        }
    }
}

/// How wide the bar is.
pub const WIDTH: usize = 20;

/// How many marks of the bar are set.
pub open spec fn marks(filled: nat) -> nat {
    if filled < WIDTH {
        filled
    } else {
        WIDTH as nat
    }
}

/// The line that is drawn over and over.
pub open spec fn bar(filled: nat, percent: nat, what: Seq<char>, took: Seq<char>, eta: Seq<char>) -> Seq<char> {
    "    ["@ + text::repeated('#', marks(filled)) + text::repeated('-', (WIDTH - marks(filled)) as nat) + "] "@
        + text::right(text::decimal(percent), 3) + "%  "@ + text::left(clipped(what, 38), 38) + " "@ + text::right(
        took,
        9,
    ) + " elapsed, "@ + eta
}

/// The line that is drawn over and over: how much is done, what is going on, how
/// long it took and how much longer it takes.
pub fn render(filled: usize, percent: u64, what: &str, took: &str, eta: &Eta) -> (out: String)
    ensures
        out@ == bar(filled as nat, percent as nat, what@, took@, eta.words()),
{
    let set: usize = if filled < WIDTH {
        filled
    } else {
        WIDTH
    };
    let mut out: String = "    [".to_owned();
    text::put_repeated(&mut out, '#', set);
    text::put_repeated(&mut out, '-', WIDTH - set);
    out.push_str("] ");
    let share: String = text::number(percent);
    text::put_right(&mut out, share.as_str(), 3);
    out.push_str("%  ");
    let label: String = clip(what, 38);
    text::put_left(&mut out, label.as_str(), 38);
    out.push_str(" ");
    text::put_right(&mut out, took, 9);
    out.push_str(" elapsed, ");
    let left: String = eta.text();
    out.push_str(left.as_str());
    out
}

/// What drawing a task asks for.
#[derive(Clone, Copy, Debug, PartialEq, Eq, Structural)]
pub struct Draw {
    /// Whether the redraw happens at all, and the clock of redraws starts again.
    pub due: bool,
    /// Whether the line on the terminal is drawn over.
    pub redraw: bool,
    /// Whether a line goes to the log, and the clock of heartbeats starts again.
    pub log: bool,
    /// Whether the same line goes to standard output, which is no terminal.
    pub print: bool,
}

/// The state of the line that is drawn over: the twentieth of the work that was last
/// logged, and whether the line is on screen.
#[derive(Clone, Copy, Debug, PartialEq, Eq, Structural)]
pub struct Task {
    pub shown: i64,
    pub visible: bool,
}

/// What a draw does, given whether the time for it has come.
pub open spec fn drawing(task: Task, due: bool, terminal: bool, percent: int, beat: bool) -> Draw {
    let log = due && (percent / 5 != task.shown || beat);
    Draw { due, redraw: due && terminal, log, print: log && !terminal }
}

impl Task {
    /// A task that has shown nothing yet.
    pub fn begin() -> (task: Task)
        ensures
            task.shown == -1,
            !task.visible,
    {
        Task { shown: -1, visible: false }
    }

    /// Draws, unless the last draw is too recent and nothing forces one. A terminal
    /// has its line drawn over; a log gets one line per twentieth of the work, and a
    /// heartbeat so that a long piece does not look like a hang.
    pub fn draw(&mut self, force: bool, due: bool, terminal: bool, percent: u64, beat: bool) -> (r: Draw)
        requires
            percent <= 100,
        ensures
            r == drawing(*old(self), force || due, terminal, percent as int, beat),
            final(self).shown == (if r.log {
                (percent / 5) as i64
            } else {
                old(self).shown
            }),
            final(self).visible == (old(self).visible || r.redraw),
    {
        if !force && !due {
            return Draw { due: false, redraw: false, log: false, print: false };
        }
        if terminal {
            self.visible = true;
        }
        let step: i64 = (percent / 5) as i64;
        let log: bool = step != self.shown || beat;
        if log {
            self.shown = step;
        }
        Draw { due: true, redraw: terminal, log, print: log && !terminal }
    }

    /// Takes the line off the screen: whether there is one to take.
    pub fn erase(&mut self) -> (r: bool)
        ensures
            r == old(self).visible,
            !final(self).visible,
            final(self).shown == old(self).shown,
    {
        let r: bool = self.visible;
        self.visible = false;
        r
    }
}

/// A log does not repeat itself: once a twentieth of the work is logged, a draw at
/// the same twentieth logs nothing unless a heartbeat is due.
pub proof fn law_a_log_does_not_repeat_itself(task: Task, first: int, second: int, terminal: bool)
    requires
        0 <= first <= 100,
        0 <= second <= 100,
        first / 5 == second / 5,
    ensures
        !drawing(Task { shown: (first / 5) as i64, ..task }, true, terminal, second, false).log,
{
}

/// A stage of a run, from its banner to its closing line.
#[derive(Debug)]
pub struct Step {
    pub name: String,
    /// When it began, in milliseconds of a clock that never goes back.
    pub began: u64,
}

impl Step {
    /// Begins a stage, and says what its banner is.
    pub fn start(name: &str, detail: &str, now: u64) -> (r: (Step, String))
        ensures
            r.0.name@ == name@,
            r.0.began == now,
            r.1@ == "\n==> "@ + name@ + "  "@ + detail@,
    {
        (Step { name: name.to_owned(), began: now }, banner(name, detail))
    }

    /// How long the stage has been going on, in milliseconds.
    pub fn elapsed(&self, now: u64) -> (ms: u64)
        ensures
            ms == (if now >= self.began {
                now - self.began
            } else {
                0
            }),
    {
        if now >= self.began {
            now - self.began
        } else {
            0
        }
    }

    /// The line that closes the stage.
    pub fn done(self, took: &str) -> (out: String)
        ensures
            out@ == "<== "@ + self.name@ + "  ok  "@ + took@,
    {
        closing(self.name.as_str(), took)
    }
}

/// A transfer of a known number of bytes.
#[derive(Debug)]
pub struct Bytes {
    pub label: String,
    pub total: u64,
    pub done: u64,
}

impl Bytes {
    /// A transfer of which nothing has arrived.
    pub fn new(label: &str, total: u64) -> (b: Bytes)
        ensures
            b.label@ == label@,
            b.total == total,
            b.done == 0,
    {
        Bytes { label: label.to_owned(), total, done: 0 }
    }

    /// Counts bytes that have arrived.
    pub fn add(&mut self, n: u64)
        requires
            old(self).done + n <= u64::MAX,
        ensures
            final(self).done == old(self).done + n,
            final(self).label == old(self).label,
            final(self).total == old(self).total,
    {
        self.done = self.done + n;
    }

    /// How far the transfer has come, and how fast.
    pub fn text(&self, rate: u64) -> (out: String)
        ensures
            out@ == self.label@ + " "@ + size(self.done as nat) + " / "@ + size(self.total as nat) + " at "@ + size(
                rate as nat,
            ) + "/s"@,
    {
        let mut out: String = self.label.clone();
        out.push_str(" ");
        let d: String = bytes(self.done);
        out.push_str(d.as_str());
        out.push_str(" / ");
        let t: String = bytes(self.total);
        out.push_str(t.as_str());
        out.push_str(" at ");
        let r: String = bytes(rate);
        out.push_str(r.as_str());
        out.push_str("/s");
        out
    }

    /// The line that a finished transfer leaves: what arrived, and how fast.
    pub fn finish(self, took: &str, rate: u64) -> (out: String)
        ensures
            out@ == "    "@ + text::left(self.label@, 18) + " "@ + text::right(size(self.done as nat), 9) + " in "@
                + took@ + "  ("@ + size(rate as nat) + "/s)"@,
    {
        let mut out: String = "    ".to_owned();
        text::put_left(&mut out, self.label.as_str(), 18);
        out.push_str(" ");
        let d: String = bytes(self.done);
        text::put_right(&mut out, d.as_str(), 9);
        out.push_str(" in ");
        out.push_str(took);
        out.push_str("  (");
        let r: String = bytes(rate);
        out.push_str(r.as_str());
        out.push_str("/s)");
        out
    }
}

/// **A label that fits stays, and a longer one is cut to its columns**, with an ellipsis
/// for the last of them.
pub proof fn law_a_label_is_cut_to_its_columns(s: Seq<char>, n: nat)
    requires
        n > 0,
    ensures
        clipped(s, n).len() == if s.len() < n { s.len() } else { n },
        s.len() <= n ==> clipped(s, n) == s,
        s.len() > n ==> clipped(s, n).take(n - 1) == s.take(n - 1) && clipped(s, n).last() == '…',
{
    reveal_strlit("…");
    if s.len() > n {
        assert(clipped(s, n).take(n - 1) =~= s.take(n - 1));
    }
}

/// **A quotient is rounded to the nearest whole number**: it is off by half at most, and
/// where it lies in the middle between two, the even one is taken.
pub proof fn law_quotients_are_rounded_to_the_nearest(n: nat, d: nat)
    requires
        d > 0,
    ensures
        2 * n - d <= 2 * (d * nearest(n, d)) <= 2 * n + d,
        2 * (d * nearest(n, d)) == 2 * n - d || 2 * (d * nearest(n, d)) == 2 * n + d ==> nearest(n, d) % 2 == 0,
{
    let q = n / d;
    let r = n % d;
    vstd::arithmetic::div_mod::lemma_fundamental_div_mod(n as int, d as int);
    assert(d * (q + 1) == d * q + d) by (nonlinear_arith);
    assert(r < d) by (nonlinear_arith)
        requires
            r == n % d,
            d > 0,
    ;
}

} // verus!
