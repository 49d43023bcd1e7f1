//! How long the phases of a run take.

use vstd::prelude::*;
use crate::expr::push_text;
use crate::outside::{instant_now, micros_since};
use crate::text::{chars_of, decimal, push_chars, push_decimal, text_of};

verus! {

/// How long a phase took.
#[derive(Debug, Clone)]
pub struct PhaseMetric {
    /// The name of the phase.
    pub name: String,
    /// How long it took, in microseconds.
    pub duration_us: u64,
}

/// The model of [`PhaseMetric`].
#[verifier::ext_equal]
pub ghost struct PhaseView {
    pub name: Seq<char>,
    pub micros: int,
}

impl PhaseMetric {
    pub open spec fn view(&self) -> PhaseView {
        PhaseView { name: self.name@, micros: self.duration_us as int }
    }
}

/// The models of phases.
pub open spec fn phase_views(v: Seq<PhaseMetric>) -> Seq<PhaseView> {
    Seq::new(v.len(), |i: int| v[i]@)
}

/// The time that phases took together.
pub open spec fn total_micros(p: Seq<PhaseView>) -> int
    decreases p.len(),
{
    if p.len() == 0 {
        0
    } else {
        total_micros(p.drop_last()) + p.last().micros
    }
}

/// A number of microseconds as far as 64 bits can hold it.
pub open spec fn clamped(micros: u128) -> u64 {
    if micros <= u64::MAX {
        micros as u64
    } else {
        u64::MAX
    }
}

// ---------------------------------------------------------------------------
// Numbers and padding
// ---------------------------------------------------------------------------

/// Digits with a comma before every three from the right.
pub open spec fn grouped(digits: Seq<char>) -> Seq<char>
    decreases digits.len(),
{
    if digits.len() <= 3 {
        digits
    } else {
        let n = digits.len() - 3;
        grouped(digits.take(n)) + ","@ + digits.skip(n)
    }
}

/// A text `n` times over.
pub open spec fn repeated(s: Seq<char>, n: nat) -> Seq<char>
    decreases n,
{
    if n == 0 {
        Seq::empty()
    } else {
        repeated(s, (n - 1) as nat) + s
    }
}

/// A text with spaces before it up to ten characters.
pub open spec fn right_aligned(s: Seq<char>) -> Seq<char> {
    if s.len() < 10 {
        repeated(" "@, (10 - s.len()) as nat) + s
    } else {
        s
    }
}

fn push_grouped(out: &mut Vec<char>, digits: &[char])
    ensures
        final(out)@ == old(out)@ + grouped(digits@),
    decreases digits@.len(),
{
    let n: usize = digits.len();
    if n <= 3 {
        push_chars(out, digits);
    } else {
        let head = vstd::slice::slice_subrange(digits, 0, n - 3);
        let tail = vstd::slice::slice_subrange(digits, n - 3, n);
        assert(head@ =~= digits@.take(n - 3));
        assert(tail@ =~= digits@.skip(n - 3));
        push_grouped(out, head);
        push_text(out, ",");
        push_chars(out, tail);
        assert(out@ =~= old(out)@ + grouped(digits@));
    }
}

fn push_repeated(out: &mut Vec<char>, s: &str, n: usize)
    ensures
        final(out)@ == old(out)@ + repeated(s@, n as nat),
{
    let mut i: usize = 0;
    assert(out@ =~= old(out)@ + repeated(s@, 0));
    while i < n
        invariant
            i <= n,
            out@ == old(out)@ + repeated(s@, i as nat),
        decreases n - i,
    {
        push_text(out, s);
        i = i + 1;
        assert(out@ =~= old(out)@ + repeated(s@, i as nat));
    }
}

/// A number of microseconds, with a comma before every three digits.
pub fn format_us(us: u64) -> (r: String)
    ensures
        r@ == grouped(decimal(us as nat)),
{
    let mut digits: Vec<char> = Vec::new();
    push_decimal(&mut digits, us as u128);
    assert(digits@ =~= decimal(us as nat));
    let mut out: Vec<char> = Vec::new();
    push_grouped(&mut out, digits.as_slice());
    assert(out@ =~= grouped(decimal(us as nat)));
    text_of(out.as_slice())
}

fn push_micros(out: &mut Vec<char>, us: u64)
    ensures
        final(out)@ == old(out)@ + right_aligned(grouped(decimal(us as nat))) + " us"@,
{
    let text = format_us(us);
    let chars = chars_of(text.as_str());
    if chars.len() < 10 {
        push_repeated(out, " ", 10 - chars.len());
    }
    push_chars(out, chars.as_slice());
    push_text(out, " us");
    assert(out@ =~= old(out)@ + right_aligned(grouped(decimal(us as nat))) + " us"@);
}

// ---------------------------------------------------------------------------
// The report
// ---------------------------------------------------------------------------

/// The length of the longest name.
pub open spec fn widest(p: Seq<PhaseView>) -> nat
    decreases p.len(),
{
    if p.len() == 0 {
        0
    } else {
        let before = widest(p.drop_last());
        if p.last().name.len() > before {
            p.last().name.len()
        } else {
            before
        }
    }
}

/// The lines for phases, whose names end in the same column.
pub open spec fn phase_lines(p: Seq<PhaseView>, width: nat) -> Seq<char>
    decreases p.len(),
{
    if p.len() == 0 {
        Seq::empty()
    } else {
        phase_lines(p.drop_last(), width) + "\n  "@ + repeated(
            " "@,
            (width - p.last().name.len()) as nat,
        ) + p.last().name + ": "@ + right_aligned(grouped(decimal(p.last().micros as nat))) + " us"@
    }
}

/// The report on phases: a line for each, a rule, and the total.
pub open spec fn report_text(p: Seq<PhaseView>) -> Seq<char> {
    if p.len() == 0 {
        "性能报告: 无记录阶段"@
    } else {
        let width = widest(p);
        "性能报告:"@ + phase_lines(p, width) + "\n  "@ + repeated("-"@, width) + repeated("-"@, 20)
            + "\n  "@ + repeated(" "@, width) + "总计: "@ + right_aligned(
            grouped(decimal(total_micros(p) as nat)),
        ) + " us"@
    }
}

proof fn widest_covers(p: Seq<PhaseView>, n: int)
    requires
        0 <= n <= p.len(),
    ensures
        widest(p.take(n)) <= widest(p),
    decreases p.len(),
{
    if n < p.len() {
        assert(p.drop_last().take(n) =~= p.take(n));
        widest_covers(p.drop_last(), n);
    } else {
        assert(p.take(n) =~= p);
    }
}

/// The phases of a run, with the time that each took.
pub struct PerfTracker {
    pub phases: Vec<PhaseMetric>,
}

impl PerfTracker {
    /// The phases, in the order in which they were recorded.
    pub open spec fn view(&self) -> Seq<PhaseView> {
        phase_views(self.phases@)
    }

    /// A tracker without phases.
    pub fn new() -> (r: PerfTracker)
        ensures
            r@ == Seq::<PhaseView>::empty(),
    {
        let r = PerfTracker { phases: Vec::new() };
        assert(r@ =~= Seq::<PhaseView>::empty());
        r
    }

    fn add_phase(&mut self, name: &str, duration_us: u64)
        ensures
            final(self)@ == old(self)@.push(
                PhaseView { name: name@, micros: duration_us as int },
            ),
    {
        let ghost before = self@;
        self.phases.push(PhaseMetric { name: name.to_owned(), duration_us });
        assert(self@ =~= before.push(PhaseView { name: name@, micros: duration_us as int }));
    }

    /// Records that a phase took that many microseconds.
    pub fn record(&mut self, name: &str, micros: u128)
        ensures
            final(self)@ == old(self)@.push(
                PhaseView { name: name@, micros: clamped(micros) as int },
            ),
    {
        let duration_us: u64 = if micros <= u64::MAX as u128 {
            micros as u64
        } else {
            u64::MAX
        };
        self.add_phase(name, duration_us);
    }

    /// Runs `f` and records how long it took.
    ///
    /// Of the time nothing is stated: it is the clock's.
    pub fn measure<F, R>(&mut self, name: &str, f: F) -> (r: R) where F: FnOnce() -> R
        requires
            f.requires(()),
        ensures
            f.ensures((), r),
            final(self)@.len() == old(self)@.len() + 1,
            final(self)@.drop_last() == old(self)@,
            final(self)@.last().name == name@,
    {
        let start = instant_now();
        let result = f();
        let elapsed: u64 = micros_since(&start);
        let ghost before = self@;
        self.add_phase(name, elapsed);
        assert(self@.drop_last() =~= before);
        result
    }

    /// Runs `f`, which may fail, and records how long it took either way.
    ///
    /// Of the time nothing is stated: it is the clock's.
    pub fn try_measure<F, T, E>(&mut self, name: &str, f: F) -> (r: Result<T, E>) where
        F: FnOnce() -> Result<T, E>,

        requires
            f.requires(()),
        ensures
            f.ensures((), r),
            final(self)@.len() == old(self)@.len() + 1,
            final(self)@.drop_last() == old(self)@,
            final(self)@.last().name == name@,
    {
        self.measure(name, f)
    }

    /// The phases.
    pub fn phases(&self) -> (r: &[PhaseMetric])
        ensures
            r@ == self.phases@,
            phase_views(r@) == self@,
    {
        self.phases.as_slice()
    }

    /// The time that all phases took together, in microseconds.
    pub fn total_duration(&self) -> (r: u64)
        requires
            total_micros(self@) <= u64::MAX,
        ensures
            r == total_micros(self@),
    {
        let ghost all = self@;
        let n: usize = self.phases.len();
        let mut total: u64 = 0;
        let mut i: usize = 0;
        assert(all.take(0) =~= Seq::empty());
        while i < n
            invariant
                i <= n,
                n == self.phases@.len(),
                all == self@,
                total == total_micros(all.take(i as int)),
                total_micros(all) <= u64::MAX,
            decreases n - i,
        {
            assert(all[i as int] == self.phases@[i as int]@);
            assert(all.take(i + 1).drop_last() =~= all.take(i as int));
            proof {
                total_grows(all, i + 1);
            }
            total = total + self.phases[i].duration_us;
            i = i + 1;
        }
        assert(all.take(n as int) =~= all);
        total
    }

    /// The number of phases.
    pub fn phase_count(&self) -> (r: usize)
        ensures
            r == self@.len(),
    {
        self.phases.len()
    }

    fn longest_name(&self) -> (r: usize)
        ensures
            r == widest(self@),
    {
        let ghost all = self@;
        let n: usize = self.phases.len();
        let mut longest: usize = 0;
        let mut i: usize = 0;
        assert(all.take(0) =~= Seq::empty());
        while i < n
            invariant
                i <= n,
                n == self.phases@.len(),
                all == self@,
                longest == widest(all.take(i as int)),
            decreases n - i,
        {
            assert(all[i as int] == self.phases@[i as int]@);
            assert(all.take(i + 1).drop_last() =~= all.take(i as int));
            let name = chars_of(self.phases[i].name.as_str());
            if name.len() > longest {
                longest = name.len();
            }
            i = i + 1;
        }
        assert(all.take(n as int) =~= all);
        longest
    }

    /// The report on the phases, for people to read.
    pub fn report(&self) -> (r: String)
        requires
            total_micros(self@) <= u64::MAX,
        ensures
            r@ == report_text(self@),
    {
        if self.phases.len() == 0 {
            return "性能报告: 无记录阶段".to_owned();
        }
        let ghost all = self@;
        let width: usize = self.longest_name();
        let n: usize = self.phases.len();
        let mut out: Vec<char> = Vec::new();
        push_text(&mut out, "性能报告:");
        let mut i: usize = 0;
        assert(all.take(0) =~= Seq::empty());
        assert(out@ =~= "性能报告:"@ + phase_lines(all.take(0), width as nat));
        while i < n
            invariant
                i <= n,
                n == self.phases@.len(),
                all == self@,
                width == widest(all),
                out@ == "性能报告:"@ + phase_lines(all.take(i as int), width as nat),
            decreases n - i,
        {
            let ghost before = phase_lines(all.take(i as int), width as nat);
            let ghost p = all[i as int];
            assert(p == self.phases@[i as int]@);
            assert(all.take(i + 1).drop_last() =~= all.take(i as int));
            let name = chars_of(self.phases[i].name.as_str());
            proof {
                widest_covers(all, i + 1);
            }
            let gap: usize = width - name.len();
            push_text(&mut out, "\n  ");
            push_repeated(&mut out, " ", gap);
            push_chars(&mut out, name.as_slice());
            push_text(&mut out, ": ");
            push_micros(&mut out, self.phases[i].duration_us);
            assert(out@ =~= "性能报告:"@ + (before + "\n  "@ + repeated(" "@, gap as nat) + p.name
                + ": "@ + right_aligned(grouped(decimal(p.micros as nat))) + " us"@));
            i = i + 1;
        }
        assert(all.take(n as int) =~= all);
        push_text(&mut out, "\n  ");
        push_repeated(&mut out, "-", width);
        push_repeated(&mut out, "-", 20);
        push_text(&mut out, "\n  ");
        push_repeated(&mut out, " ", width);
        push_text(&mut out, "总计: ");
        push_micros(&mut out, self.total_duration());
        assert(out@ =~= report_text(all));
        text_of(out.as_slice())
    }
}

impl Default for PerfTracker {
    fn default() -> (r: PerfTracker)
        ensures
            r@ == Seq::<PhaseView>::empty(),
    {
        PerfTracker::new()
    }
}

proof fn total_grows(p: Seq<PhaseView>, n: int)
    requires
        0 <= n <= p.len(),
        forall|i: int| 0 <= i < p.len() ==> 0 <= (#[trigger] p[i]).micros,
    ensures
        total_micros(p.take(n)) <= total_micros(p),
    decreases p.len(),
{
    if n < p.len() {
        let rest = p.drop_last();
        assert forall|i: int| 0 <= i < rest.len() implies 0 <= (#[trigger] rest[i]).micros by {
            assert(rest[i] == p[i]);
        }
        assert(rest.take(n) =~= p.take(n));
        total_grows(rest, n);
        assert(p.last() == p[p.len() - 1]);
    } else {
        assert(p.take(n) =~= p);
    }
}

// ---------------------------------------------------------------------------
// Laws
// ---------------------------------------------------------------------------

/// The commas in a grouped number stand between groups of three digits: without
/// them the number is as long as its digits.
pub proof fn grouped_length(digits: Seq<char>)
    requires
        digits.len() > 0,
    ensures
        grouped(digits).len() == digits.len() + (digits.len() - 1) / 3,
    decreases digits.len(),
{
    reveal_strlit(",");
    if digits.len() > 3 {
        grouped_length(digits.take(digits.len() - 3));
    }
}

/// Recording a phase adds its time to the total.
pub proof fn recording_adds_up(p: Seq<PhaseView>, phase: PhaseView)
    ensures
        total_micros(p.push(phase)) == total_micros(p) + phase.micros,
{
    assert(p.push(phase).drop_last() =~= p);
}

/// A grouped number has its digits in their order, and a comma at every fourth
/// place from the right and nowhere else.
pub proof fn commas_stand_at_every_fourth_place(digits: Seq<char>, i: int)
    requires
        forall|j: int| 0 <= j < digits.len() ==> #[trigger] digits[j] != ',',
        0 <= i < grouped(digits).len(),
    ensures
        grouped(digits).filter(|c: char| c != ',') == digits,
        grouped(digits)[i] == ',' <==> (grouped(digits).len() - i) % 4 == 0,
    decreases digits.len(),
{
    reveal_strlit(",");
    let kept = |c: char| c != ',';
    if digits.len() <= 3 {
        nothing_is_left_out(digits);
    } else {
        let n = digits.len() - 3;
        let head = digits.take(n);
        let tail = digits.skip(n);
        grouped_length(head);
        commas_stand_at_every_fourth_place(head, if i < grouped(head).len() { i } else { 0 });
        nothing_is_left_out(tail);
        Seq::filter_distributes_over_add(grouped(head) + ","@, tail, kept);
        Seq::filter_distributes_over_add(grouped(head), ","@, kept);
        reveal_with_fuel(Seq::filter, 2);
        assert(","@.drop_last() =~= Seq::<char>::empty());
        assert(","@.filter(kept) =~= Seq::<char>::empty());
        assert(head + Seq::<char>::empty() + tail =~= digits);
        let g = grouped(head).len() as int;
        if i < g {
            assert(grouped(digits)[i] == grouped(head)[i]);
        } else if i > g {
            assert(grouped(digits)[i] == tail[i - g - 1]);
            assert(tail[i - g - 1] == digits[n + (i - g - 1)]);
        }
    }
}

proof fn nothing_is_left_out(s: Seq<char>)
    requires
        forall|j: int| 0 <= j < s.len() ==> #[trigger] s[j] != ',',
    ensures
        s.filter(|c: char| c != ',') == s,
    decreases s.len(),
{
    reveal(Seq::filter);
    if s.len() > 0 {
        nothing_is_left_out(s.drop_last());
        assert(s.drop_last().push(s.last()) =~= s);
    }
}

/// A text is moved to the right by spaces until it has ten characters; a longer
/// one stays.
pub proof fn what_is_aligned(s: Seq<char>, i: int)
    requires
        0 <= i < right_aligned(s).len() - s.len(),
    ensures
        right_aligned(s).len() == 10,
        right_aligned(s)[i] == ' ',
        right_aligned(s).skip(10 - s.len()) == s,
{
    reveal_strlit(" ");
    let n = (10 - s.len()) as nat;
    spaces(n, i);
    assert(right_aligned(s).skip(10 - s.len()) =~= s);
}

proof fn spaces(n: nat, i: int)
    ensures
        repeated(" "@, n).len() == n,
        0 <= i < n ==> repeated(" "@, n)[i] == ' ',
    decreases n,
{
    reveal_strlit(" ");
    if n > 0 {
        spaces((n - 1) as nat, i);
    }
}

/// The widest name is as long as some name, and no name is longer.
pub proof fn no_name_is_wider(p: Seq<PhaseView>, i: int)
    requires
        0 <= i < p.len(),
    ensures
        p[i].name.len() <= widest(p),
        exists|j: int| 0 <= j < p.len() && (#[trigger] p[j]).name.len() == widest(p),
    decreases p.len(),
{
    if i < p.len() - 1 {
        no_name_is_wider(p.drop_last(), i);
    }
    if widest(p) == p.last().name.len() {
        assert(p[p.len() - 1].name.len() == widest(p));
    } else if p.len() > 1 {
        no_name_is_wider(p.drop_last(), 0);
        let front = p.drop_last();
        let j = choose|j: int| 0 <= j < front.len() && (#[trigger] front[j]).name.len() == widest(front);
        assert(p[j].name.len() == widest(p));
    }
}

} // verus!
