//! Telling a running core to load its configuration again.
//!
//! What is to be done is decided here, step by step; the caller performs each
//! step and reports what came of it.

use vstd::prelude::*;
use crate::error::{headed, three, PrismError};
use crate::expr::concat;
use crate::number::int_text;
use crate::target::TargetCompiler;
use crate::text::{chars_of, decimal, decimal_text, text_of};

verus! {

// ---------------------------------------------------------------------------
// Strategies and results
// ---------------------------------------------------------------------------

/// How to tell the core.
#[derive(Debug, Clone)]
pub enum HotReloadStrategy {
    /// Not at all.
    Off,
    /// By the signal SIGHUP to a process.
    Signal { pid: u32 },
    /// By a request to the API of the core.
    HttpApi { url: String },
}

/// The model of [`HotReloadStrategy`].
#[verifier::ext_equal]
pub ghost enum StrategyView {
    Off,
    Signal(int),
    HttpApi(Seq<char>),
}

/// A strategy as text.
pub open spec fn strategy_text(s: StrategyView) -> Seq<char> {
    match s {
        StrategyView::Off => "none"@,
        StrategyView::Signal(pid) => "signal(pid="@ + decimal(pid as nat) + ")"@,
        StrategyView::HttpApi(url) => "http-api("@ + url + ")"@,
    }
}

impl HotReloadStrategy {
    pub open spec fn view(&self) -> StrategyView {
        match self {
            HotReloadStrategy::Off => StrategyView::Off,
            HotReloadStrategy::Signal { pid } => StrategyView::Signal(*pid as int),
            HotReloadStrategy::HttpApi { url } => StrategyView::HttpApi(url@),
        }
    }

    /// The strategy as text.
    pub fn to_text(&self) -> (r: String)
        ensures
            r@ == strategy_text(self@),
    {
        match self {
            HotReloadStrategy::Off => "none".to_owned(),
            HotReloadStrategy::Signal { pid } => three(
                "signal(pid=",
                decimal_text(*pid as u64).as_str(),
                ")",
            ),
            HotReloadStrategy::HttpApi { url } => three("http-api(", url.as_str(), ")"),
        }
    }
}

/// What came of telling the core.
#[derive(Debug, Clone)]
pub struct HotReloadResult {
    /// The name of the strategy.
    pub strategy: String,
    /// Whether the core was told, or was not to be told.
    pub success: bool,
    /// What came of it, in words.
    pub detail: String,
}

/// The model of [`HotReloadResult`].
#[verifier::ext_equal]
pub ghost struct ResultView {
    pub strategy: Seq<char>,
    pub success: bool,
    pub detail: Seq<char>,
}

impl HotReloadResult {
    pub open spec fn view(&self) -> ResultView {
        ResultView { strategy: self.strategy@, success: self.success, detail: self.detail@ }
    }

    /// The result as text.
    pub fn to_text(&self) -> (r: String)
        ensures
            r@ == (if self.success {
                "[✅ "@
            } else {
                "[❌ "@
            }) + self.strategy@ + "] "@ + self.detail@,
    {
        let head = if self.success {
            concat("[✅ ", self.strategy.as_str())
        } else {
            concat("[❌ ", self.strategy.as_str())
        };
        three(head.as_str(), "] ", self.detail.as_str())
    }
}

fn good_result(strategy: &str, detail: String) -> (r: HotReloadResult)
    ensures
        r@ == (ResultView { strategy: strategy@, success: true, detail: detail@ }),
{
    HotReloadResult { strategy: strategy.to_owned(), success: true, detail }
}

// ---------------------------------------------------------------------------
// Steps
// ---------------------------------------------------------------------------

/// What is to be done next.
#[derive(Debug, Clone)]
pub enum ReloadStep {
    /// Nothing: this is the result.
    Done(HotReloadResult),
    /// See whether the process exists.
    Probe { pid: u32 },
    /// Send SIGHUP to the process.
    SendSignal { pid: u32 },
    /// Send a PUT request.
    Put { url: String },
}

/// The model of [`ReloadStep`].
#[verifier::ext_equal]
pub ghost enum StepView {
    Done(ResultView),
    Probe(int),
    SendSignal(int),
    Put(Seq<char>),
}

impl ReloadStep {
    pub open spec fn view(&self) -> StepView {
        match self {
            ReloadStep::Done(r) => StepView::Done(r@),
            ReloadStep::Probe { pid } => StepView::Probe(*pid as int),
            ReloadStep::SendSignal { pid } => StepView::SendSignal(*pid as int),
            ReloadStep::Put { url } => StepView::Put(url@),
        }
    }
}

/// What the operating system says to a signal.
#[derive(Debug, Clone, Copy, PartialEq, Eq, Structural)]
pub enum SignalReply {
    /// The signal was delivered.
    Delivered,
    /// There is no such process.
    NoProcess,
    /// The signal was not permitted.
    NotPermitted,
    /// The signal failed otherwise, with an error code.
    Failed(i32),
}

/// What came of a step.
#[derive(Debug, Clone)]
pub enum ReloadEvent {
    /// The process is listed by the operating system.
    Listed,
    /// What the operating system says to an empty signal.
    Probed(SignalReply),
    /// What the operating system says to SIGHUP.
    Signalled(SignalReply),
    /// The request was answered with a status that means success.
    Answered(u16),
    /// The request was answered with a status that means an error.
    Refused(u16),
    /// The request was not answered, for a reason.
    Unanswered(String),
}

/// The model of [`ReloadEvent`].
#[verifier::ext_equal]
pub ghost enum EventView {
    Listed,
    Probed(SignalReply),
    Signalled(SignalReply),
    Answered(int),
    Refused(int),
    Unanswered(Seq<char>),
}

impl ReloadEvent {
    pub open spec fn view(&self) -> EventView {
        match self {
            ReloadEvent::Listed => EventView::Listed,
            ReloadEvent::Probed(r) => EventView::Probed(*r),
            ReloadEvent::Signalled(r) => EventView::Signalled(*r),
            ReloadEvent::Answered(code) => EventView::Answered(*code as int),
            ReloadEvent::Refused(code) => EventView::Refused(*code as int),
            ReloadEvent::Unanswered(reason) => EventView::Unanswered(reason@),
        }
    }
}

/// An address without the slashes at its end.
pub open spec fn without_slashes(url: Seq<char>) -> Seq<char>
    decreases url.len(),
{
    if url.len() > 0 && url.last() == '/' {
        without_slashes(url.drop_last())
    } else {
        url
    }
}

/// The first step of a strategy, or the message for a process that must not get
/// a signal.
pub open spec fn first_step(s: StrategyView) -> Result<StepView, Seq<char>> {
    match s {
        StrategyView::Off => Ok(
            StepView::Done(
                ResultView {
                    strategy: "none"@,
                    success: true,
                    detail: "热重载已禁用，配置文件已更新但未通知内核"@,
                },
            ),
        ),
        StrategyView::Signal(pid) => if pid == 0 {
            Err("无效的 PID: 0（不允许向所有进程广播信号）"@)
        } else if pid == 1 {
            Err("不允许向 PID 1 (init/systemd) 发送信号"@)
        } else if pid > i32::MAX {
            Err(
                "PID "@ + decimal(pid as nat)
                    + " exceeds i32::MAX (2147483647), cannot send POSIX signal"@,
            )
        } else {
            Ok(StepView::Probe(pid))
        },
        StrategyView::HttpApi(url) => Ok(
            StepView::Put(without_slashes(url) + "/configs?force=true"@),
        ),
    }
}

/// The step that follows a step, or the message for its failure.
pub open spec fn next_step(step: StepView, event: EventView) -> Result<StepView, Seq<char>> {
    match (step, event) {
        (StepView::Probe(pid), EventView::Probed(SignalReply::NoProcess)) => Err(
            "目标进程不存在（PID="@ + decimal(pid as nat)
                + "），kill(pid, 0) 返回 ESRCH。可能已退出或 PID 错误。"@,
        ),
        (StepView::Probe(pid), _) => Ok(StepView::SendSignal(pid)),
        (StepView::SendSignal(pid), EventView::Signalled(SignalReply::Delivered)) => Ok(
            StepView::Done(
                ResultView {
                    strategy: "signal"@,
                    success: true,
                    detail: "已向 PID "@ + decimal(pid as nat) + " 发送 SIGHUP 信号"@,
                },
            ),
        ),
        (StepView::SendSignal(pid), EventView::Signalled(SignalReply::NoProcess)) => Err(
            "目标进程不存在（PID="@ + decimal(pid as nat) + "），可能已退出或 PID 错误"@,
        ),
        (StepView::SendSignal(pid), EventView::Signalled(SignalReply::NotPermitted)) => Err(
            "权限不足，无法向 PID "@ + decimal(pid as nat)
                + " 发送信号（可能需要 root/管理员权限）"@,
        ),
        (StepView::SendSignal(pid), EventView::Signalled(SignalReply::Failed(code))) => Err(
            "发送 SIGHUP 信号失败，PID="@ + decimal(pid as nat) + "，错误码="@ + int_text(
                code as int,
            ),
        ),
        (StepView::Put(_), EventView::Answered(code)) => Ok(
            StepView::Done(
                ResultView {
                    strategy: "http-api"@,
                    success: true,
                    detail: "HTTP API 热重载成功 (status="@ + decimal(code as nat) + ")"@,
                },
            ),
        ),
        (StepView::Put(_), EventView::Refused(code)) => Err(
            "HTTP API 返回错误: "@ + decimal(code as nat),
        ),
        (StepView::Put(_), EventView::Unanswered(reason)) => Err(
            "HTTP API 请求失败: "@ + reason,
        ),
        _ => Ok(step),
    }
}

/// A fault of output with that message.
pub open spec fn is_output_fault(e: PrismError, text: Seq<char>) -> bool {
    e matches PrismError::TargetOutput { message } && message@ == text
}

fn output_fault(message: String) -> (e: PrismError)
    ensures
        is_output_fault(e, message@),
{
    PrismError::TargetOutput { message }
}

impl TargetCompiler {
    /// The first step of telling the core to load its configuration again.
    pub fn notify_hot_reload(&self, strategy: HotReloadStrategy) -> (r: Result<
        ReloadStep,
        PrismError,
    >)
        ensures
            match r {
                Ok(step) => first_step(strategy@) == Ok::<StepView, Seq<char>>(step@),
                Err(e) => first_step(strategy@) matches Err(m) && is_output_fault(e, m),
            },
    {
        match strategy {
            HotReloadStrategy::Off => Ok(
                ReloadStep::Done(
                    good_result(
                        "none",
                        "热重载已禁用，配置文件已更新但未通知内核".to_owned(),
                    ),
                ),
            ),
            HotReloadStrategy::Signal { pid } => if pid == 0 {
                Err(
                    output_fault(
                        "无效的 PID: 0（不允许向所有进程广播信号）".to_owned(),
                    ),
                )
            } else if pid == 1 {
                Err(output_fault("不允许向 PID 1 (init/systemd) 发送信号".to_owned()))
            } else if pid > 0x7FFF_FFFF {
                Err(
                    output_fault(
                        three(
                            "PID ",
                            decimal_text(pid as u64).as_str(),
                            " exceeds i32::MAX (2147483647), cannot send POSIX signal",
                        ),
                    ),
                )
            } else {
                Ok(ReloadStep::Probe { pid })
            },
            HotReloadStrategy::HttpApi { url } => {
                let base = strip_slashes(url.as_str());
                Ok(ReloadStep::Put { url: concat(base.as_str(), "/configs?force=true") })
            },
        }
    }
}

fn strip_slashes(url: &str) -> (r: String)
    ensures
        r@ == without_slashes(url@),
{
    let chars = chars_of(url);
    let mut n: usize = chars.len();
    assert(url@.take(n as int) =~= url@);
    while n > 0 && chars[n - 1] == '/'
        invariant
            n <= chars@.len(),
            chars@ == url@,
            without_slashes(url@) == without_slashes(url@.take(n as int)),
        decreases n,
    {
        assert(url@.take(n as int).drop_last() =~= url@.take(n - 1));
        n = n - 1;
    }
    proof {
        if n > 0 {
            assert(url@.take(n as int).last() == url@[n - 1]);
        }
    }
    let head = vstd::slice::slice_subrange(chars.as_slice(), 0, n);
    assert(head@ =~= url@.take(n as int));
    text_of(head)
}

fn code_text(code: i32) -> (r: String)
    ensures
        r@ == int_text(code as int),
{
    let mut out: Vec<char> = Vec::new();
    crate::number::push_number(&mut out, crate::number::Number::Int(code as i64));
    assert(out@ =~= int_text(code as int));
    text_of(out.as_slice())
}

/// The step that follows, once a step was performed.
pub fn after_step(step: ReloadStep, event: ReloadEvent) -> (r: Result<ReloadStep, PrismError>)
    ensures
        match r {
            Ok(next) => next_step(step@, event@) == Ok::<StepView, Seq<char>>(next@),
            Err(e) => next_step(step@, event@) matches Err(m) && is_output_fault(e, m),
        },
{
    match step {
        ReloadStep::Done(result) => Ok(ReloadStep::Done(result)),
        ReloadStep::Probe { pid } => match event {
            ReloadEvent::Probed(SignalReply::NoProcess) => Err(
                output_fault(
                    three(
                        "目标进程不存在（PID=",
                        decimal_text(pid as u64).as_str(),
                        "），kill(pid, 0) 返回 ESRCH。可能已退出或 PID 错误。",
                    ),
                ),
            ),
            _ => Ok(ReloadStep::SendSignal { pid }),
        },
        ReloadStep::SendSignal { pid } => match event {
            ReloadEvent::Signalled(reply) => {
                let number = decimal_text(pid as u64);
                match reply {
                    SignalReply::Delivered => Ok(
                        ReloadStep::Done(
                            good_result(
                                "signal",
                                three("已向 PID ", number.as_str(), " 发送 SIGHUP 信号"),
                            ),
                        ),
                    ),
                    SignalReply::NoProcess => Err(
                        output_fault(
                            three(
                                "目标进程不存在（PID=",
                                number.as_str(),
                                "），可能已退出或 PID 错误",
                            ),
                        ),
                    ),
                    SignalReply::NotPermitted => Err(
                        output_fault(
                            three(
                                "权限不足，无法向 PID ",
                                number.as_str(),
                                " 发送信号（可能需要 root/管理员权限）",
                            ),
                        ),
                    ),
                    SignalReply::Failed(code) => {
                        let code = code_text(code);
                        let head = three(
                            "发送 SIGHUP 信号失败，PID=",
                            number.as_str(),
                            "，错误码=",
                        );
                        Err(output_fault(concat(head.as_str(), code.as_str())))
                    },
                }
            },
            _ => Ok(ReloadStep::SendSignal { pid }),
        },
        ReloadStep::Put { url } => match event {
            ReloadEvent::Answered(code) => Ok(
                ReloadStep::Done(
                    good_result(
                        "http-api",
                        three(
                            "HTTP API 热重载成功 (status=",
                            decimal_text(code as u64).as_str(),
                            ")",
                        ),
                    ),
                ),
            ),
            ReloadEvent::Refused(code) => Err(
                output_fault(
                    headed("HTTP API 返回错误: ", decimal_text(code as u64).as_str()),
                ),
            ),
            ReloadEvent::Unanswered(reason) => Err(
                output_fault(headed("HTTP API 请求失败: ", reason.as_str())),
            ),
            _ => Ok(ReloadStep::Put { url }),
        },
    }
}

// ---------------------------------------------------------------------------
// Laws
// ---------------------------------------------------------------------------

/// Whether steps follow one another from the first step of a strategy.
pub open spec fn is_run(s: StrategyView, steps: Seq<StepView>, events: Seq<EventView>) -> bool {
    &&& steps.len() == events.len() + 1
    &&& first_step(s) == Ok::<StepView, Seq<char>>(steps[0])
    &&& forall|i: int|
        0 <= i < events.len() ==> next_step(steps[i], #[trigger] events[i]) == Ok::<
            StepView,
            Seq<char>,
        >(steps[i + 1])
}

/// A signal goes only to the process that was asked for, and never to all
/// processes, to the first one, or to a number that is no process.
pub proof fn signals_go_where_they_may(
    s: StrategyView,
    steps: Seq<StepView>,
    events: Seq<EventView>,
    i: int,
    pid: int,
)
    requires
        is_run(s, steps, events),
        0 <= i < steps.len(),
        steps[i] == StepView::SendSignal(pid) || steps[i] == StepView::Probe(pid),
    ensures
        s == StrategyView::Signal(pid),
        pid > 1 || pid < 0,
        pid <= i32::MAX,
    decreases i,
{
    if i > 0 {
        assert(next_step(steps[i - 1], events[i - 1]) == Ok::<StepView, Seq<char>>(steps[i]));
        signals_go_where_they_may(s, steps, events, i - 1, pid);
    }
}

/// A run over a signal is done only once the signal was delivered.
pub proof fn done_means_delivered(
    pid: int,
    steps: Seq<StepView>,
    events: Seq<EventView>,
    i: int,
)
    requires
        is_run(StrategyView::Signal(pid), steps, events),
        0 <= i < steps.len(),
        steps[i] is Done,
    ensures
        events.contains(EventView::Signalled(SignalReply::Delivered)),
    decreases i,
{
    if i > 0 {
        assert(next_step(steps[i - 1], events[i - 1]) == Ok::<StepView, Seq<char>>(steps[i]));
        if steps[i - 1] is Done {
            done_means_delivered(pid, steps, events, i - 1);
        } else if steps[i - 1] is Put {
            no_request_on_signal(pid, steps, events, i - 1);
        } else {
            assert(events[i - 1] == EventView::Signalled(SignalReply::Delivered));
        }
    }
}

proof fn no_request_on_signal(pid: int, steps: Seq<StepView>, events: Seq<EventView>, i: int)
    requires
        is_run(StrategyView::Signal(pid), steps, events),
        0 <= i < steps.len(),
    ensures
        !(steps[i] is Put),
    decreases i,
{
    if i > 0 {
        assert(next_step(steps[i - 1], events[i - 1]) == Ok::<StepView, Seq<char>>(steps[i]));
        no_request_on_signal(pid, steps, events, i - 1);
    }
}

/// Slashes at the end of an address are left out, and no others.
pub proof fn which_slashes_are_left_out(url: Seq<char>)
    ensures
        without_slashes(url.push('/')) == without_slashes(url),
        url.len() > 0 && url.last() != '/' ==> without_slashes(url) == url,
        without_slashes(url).len() <= url.len(),
        without_slashes(url).len() == 0 || without_slashes(url).last() != '/',
        url.take(without_slashes(url).len() as int) == without_slashes(url),
    decreases url.len(),
{
    assert(url.push('/').drop_last() =~= url);
    if url.len() > 0 && url.last() == '/' {
        which_slashes_are_left_out(url.drop_last());
        assert(url.take(without_slashes(url).len() as int) =~= url.drop_last().take(
            without_slashes(url).len() as int,
        ));
    } else {
        assert(url.take(url.len() as int) =~= url);
    }
}

/// A core with an address is asked once, at its address, and the core has loaded
/// its configuration exactly when it says so.
pub proof fn requests_ask_once(url: Seq<char>, steps: Seq<StepView>, events: Seq<EventView>, i: int)
    requires
        is_run(StrategyView::HttpApi(url), steps, events),
        0 <= i < steps.len(),
    ensures
        steps[0] == StepView::Put(without_slashes(url) + "/configs?force=true"@),
        steps[i] is Done || steps[i] == steps[0],
        steps[i] matches StepView::Done(r) ==> r.success && r.strategy == "http-api"@ && exists|
            j: int,
        |
            0 <= j < i && #[trigger] events[j] is Answered,
    decreases i,
{
    if i > 0 {
        requests_ask_once(url, steps, events, i - 1);
        assert(next_step(steps[i - 1], events[i - 1]) == Ok::<StepView, Seq<char>>(steps[i]));
        if steps[i - 1] is Put && steps[i] is Done {
            assert(events[i - 1] is Answered);
        }
    }
}

/// Only a process that may get a signal is asked for, and it gets the signal
/// unless it is known that there is no such process.
pub proof fn when_a_signal_is_sent(pid: int, reply: SignalReply)
    ensures
        first_step(StrategyView::Signal(pid)) is Ok <==> pid != 0 && pid != 1 && pid <= i32::MAX,
        1 < pid <= i32::MAX ==> first_step(StrategyView::Signal(pid)) == Ok::<StepView, Seq<char>>(
            StepView::Probe(pid),
        ),
        next_step(StepView::Probe(pid), EventView::Probed(reply)) is Err <==> reply is NoProcess,
        !(reply is NoProcess) ==> next_step(StepView::Probe(pid), EventView::Probed(reply)) == Ok::<
            StepView,
            Seq<char>,
        >(StepView::SendSignal(pid)),
        next_step(StepView::SendSignal(pid), EventView::Signalled(reply)) is Ok <==> reply
            is Delivered,
{
}

} // verus!
