//! The dialogue with the server.

use crate::messages::{
    carries, law_report_is_read_back, member_models, member_named, member_number, member_text, number_or_zero,
    object_members, object_text, read_back, read_object, result_fields, stop_fields, stop_text,
    text_or, widened, FieldModel, JobMessage, Member, MemberModel, ResultMessage,
};
use crate::scheduler::{Lease, LeaseModel};
use crate::text::{contains, lowercase, occurs_in, parse_u64, same, spelled_u64, to_lowercase};
use crate::worker::{GuiStatsInner, StatsModel, Tick};
use vstd::prelude::*;
use vstd::string::*;

verus! {

/// What is reported to the server.
#[derive(Debug)]
pub struct Report {
    pub seed_str: String,
    pub total_done: u64,
    pub best_correct: u32,
    pub best_arr: [u8; 25],
    pub best_index: u64,
}

/// The contents of a `Report`.
#[verifier::ext_equal]
pub struct ReportModel {
    pub seed_str: Seq<char>,
    pub total_done: u64,
    pub best_correct: u32,
    pub best_arr: Seq<u8>,
    pub best_index: u64,
}

impl View for Report {
    type V = ReportModel;

    open spec fn view(&self) -> ReportModel {
        ReportModel {
            seed_str: self.seed_str@,
            total_done: self.total_done,
            best_correct: self.best_correct,
            best_arr: self.best_arr@,
            best_index: self.best_index,
        }
    }
}

/// The fields of the message that reports `report` under a seed.
pub open spec fn report_fields(seed: Seq<char>, report: ReportModel) -> Seq<
    (Seq<char>, FieldModel),
> {
    result_fields(
        "result"@,
        seed,
        report.total_done,
        report.best_correct,
        widened(report.best_arr),
        report.best_index,
    )
}

impl Report {
    /// The report on a tick.
    pub fn of_tick(tick: &Tick) -> (r: Self)
        ensures
            r@ == (ReportModel {
                seed_str: tick.seed_str@,
                total_done: tick.total_done,
                best_correct: tick.best_correct,
                best_arr: tick.best_arr@,
                best_index: tick.best_index,
            }),
            r.seed_str@ == tick.seed_str@,
            r.total_done == tick.total_done,
            r.best_correct == tick.best_correct,
            r.best_arr == tick.best_arr,
            r.best_index == tick.best_index,
    {
        Report {
            seed_str: tick.seed_str.clone(),
            total_done: tick.total_done,
            best_correct: tick.best_correct,
            best_arr: tick.best_arr,
            best_index: tick.best_index,
        }
    }

    /// The message that makes this report under a seed.
    pub fn to_text(&self, seed: &String) -> (r: String)
        ensures
            r@ == object_text(report_fields(seed@, self@)),
            carries(r@, report_fields(seed@, self@)),
            carries(
                r@,
                result_fields(
                    "result"@,
                    seed@,
                    self.total_done,
                    self.best_correct,
                    widened(self.best_arr@),
                    self.best_index,
                ),
            ),
    {
        ResultMessage::new(
            seed,
            self.total_done,
            self.best_correct,
            &self.best_arr,
            self.best_index,
        ).to_text()
    }
}

/// What the worker remembers of the dialogue, over lost connections too.
#[derive(Debug)]
pub struct Dialogue {
    /// Most recent seed that the server has sent in a job.
    pub last_seed_str: Option<String>,
    /// The most recently sent report, under the seed that it was sent with.
    pub last_report: Option<Report>,
}

/// The contents of a `Dialogue`.
#[verifier::ext_equal]
pub struct DialogueModel {
    pub last_seed_str: Option<Seq<char>>,
    pub last_report: Option<ReportModel>,
}

impl View for Dialogue {
    type V = DialogueModel;

    open spec fn view(&self) -> DialogueModel {
        DialogueModel {
            last_seed_str: match self.last_seed_str {
                Some(s) => Some(s@),
                None => None,
            },
            last_report: match self.last_report {
                Some(r) => Some(r@),
                None => None,
            },
        }
    }
}

/// What a message of the server asks for.
#[derive(Debug)]
pub enum Reaction {
    Nothing,
    /// Work on a lease.
    Lease(Lease),
    /// Send a message.
    Send(String),
    /// End the session.
    Cancel,
}

/// The contents of a `Reaction`.
pub enum ReactionModel {
    Nothing,
    Lease(LeaseModel),
    Send(Seq<char>),
    Cancel,
}

impl View for Reaction {
    type V = ReactionModel;

    open spec fn view(&self) -> ReactionModel {
        match *self {
            Reaction::Nothing => ReactionModel::Nothing,
            Reaction::Lease(l) => ReactionModel::Lease(l@),
            Reaction::Send(s) => ReactionModel::Send(s@),
            Reaction::Cancel => ReactionModel::Cancel,
        }
    }
}

/// The message to send again after a rejection, given the reason in lower
/// case: the last report under the most recent seed, where the reason speaks
/// of the seed and that seed is not the one that was reported.
pub open spec fn retry_after(d: DialogueModel, lowered: Seq<char>) -> ReactionModel {
    match (d.last_seed_str, d.last_report) {
        (Some(seed), Some(report)) => if occurs_in("seed"@, lowered) && seed != report.seed_str {
            ReactionModel::Send(object_text(report_fields(seed, report)))
        } else {
            ReactionModel::Nothing
        },
        _ => ReactionModel::Nothing,
    }
}

/// The dialogue after a rejection: a report that is made again is the most
/// recent one, so that it is made again once only.
pub open spec fn after_retry(d: DialogueModel, lowered: Seq<char>) -> DialogueModel {
    match (d.last_seed_str, d.last_report) {
        (Some(seed), Some(report)) => if retry_after(d, lowered) is Send {
            DialogueModel { last_report: Some(ReportModel { seed_str: seed, ..report }), ..d }
        } else {
            d
        },
        _ => d,
    }
}

/// What the members of a message do to the dialogue, to the display and to
/// the worker. The whole text stands in for a reason that is missing.
pub open spec fn reacted(
    d: DialogueModel,
    stats: StatsModel,
    text: Seq<char>,
    members: Seq<(Seq<char>, MemberModel)>,
) -> (DialogueModel, StatsModel, ReactionModel) {
    let kind = text_or(members, "type"@, ""@);
    if kind == "job"@ {
        let seed_str = text_or(members, "seed"@, ""@);
        match spelled_u64(seed_str) {
            Some(seed) => (
                DialogueModel { last_seed_str: Some(seed_str), ..d },
                stats,
                ReactionModel::Lease(
                    LeaseModel { seed_str, seed, count: number_or_zero(members, "count"@) },
                ),
            ),
            None => (d, stats, ReactionModel::Nothing),
        }
    } else if kind == "welcome"@ {
        let nick = text_or(members, "nickname"@, "?"@);
        (
            d,
            StatsModel {
                nickname: nick,
                total_shuffles: number_or_zero(members, "lifetime_shuffles"@),
                status: "connected ✅ — welcome, "@ + nick + "!"@,
                ..stats
            },
            ReactionModel::Nothing,
        )
    } else if kind == "credited"@ {
        (
            d,
            StatsModel { shuffles_per_sec: number_or_zero(members, "rate"@), ..stats },
            ReactionModel::Nothing,
        )
    } else if kind == "rejected"@ {
        let reason = text_or(members, "reason"@, text);
        (
            after_retry(d, lowercase(reason)),
            StatsModel { status: "❌ rejected: "@ + reason, ..stats },
            retry_after(d, lowercase(reason)),
        )
    } else if kind == "banned"@ {
        (d, stats, ReactionModel::Cancel)
    } else {
        (d, stats, ReactionModel::Nothing)
    }
}

/// What comes in while a connection stands.
#[derive(Debug)]
pub enum NetEvent {
    /// A text message of the server.
    Text(String),
    /// A sign of life that wants an answer.
    Ping(Vec<u8>),
    /// Another kind of message.
    Ignored,
    /// The connection is closed or broken.
    Closed,
    /// A report to make.
    Report(Report),
    /// A report has been sent.
    ReportSent(Report),
    /// No more reports will come.
    ReportsEnded,
    /// The session is ending.
    Cancelled,
}

/// What to do about it.
#[derive(Debug)]
pub enum NetAction {
    /// Wait for the next event.
    Continue,
    /// Hand a lease to the scheduler.
    Lease(Lease),
    /// Send a text.
    Send(String),
    /// Answer a sign of life.
    Pong(Vec<u8>),
    /// Send the text of a report, and confirm that it was sent.
    SendReport(String, Report),
    /// End the session.
    Cancel,
    /// Send a last text, whether that works or not, and leave.
    Farewell(String),
    /// Leave.
    Leave,
    /// Give the connection up as lost.
    Lost,
}

impl Dialogue {
    /// A dialogue in which nothing has been said.
    pub fn new() -> (r: Self)
        ensures
            r@ == (DialogueModel { last_seed_str: None, last_report: None }),
    {
        Dialogue { last_seed_str: None, last_report: None }
    }

    /// What to send again after a rejection, given its reason in lower case.
    /// What is sent again is remembered under its new seed.
    pub fn retry(&mut self, lowered: &str) -> (r: Reaction)
        ensures
            r@ == retry_after(old(self)@, lowered@),
            final(self)@ == after_retry(old(self)@, lowered@),
            r matches Reaction::Send(text) ==> carries(
                text@,
                report_fields(old(self)@.last_seed_str->0, old(self)@.last_report->0),
            ),
    {
        if contains(lowered, "seed") {
            if let (Some(seed), Some(report)) = (&self.last_seed_str, &self.last_report) {
                if *seed != report.seed_str {
                    let text = report.to_text(seed);
                    let again = Report {
                        seed_str: seed.clone(),
                        total_done: report.total_done,
                        best_correct: report.best_correct,
                        best_arr: report.best_arr,
                        best_index: report.best_index,
                    };
                    self.last_report = Some(again);
                    return Reaction::Send(text);
                }
            }
        }
        Reaction::Nothing
    }

    /// Takes the members of a message of the server; `text` is the message.
    pub fn on_members(
        &mut self,
        stats: &mut GuiStatsInner,
        text: &str,
        members: &Vec<(String, Member)>,
    ) -> (r: Reaction)
        ensures
            (final(self)@, final(stats)@, r@) == reacted(
                old(self)@,
                old(stats)@,
                text@,
                member_models(members@),
            ),
    {
        let kind = member_text(members, "type", "");
        if same(kind.as_str(), "job") {
            let job = JobMessage::from_members(members);
            match parse_u64(job.seed.as_str()) {
                Some(seed) => {
                    self.last_seed_str = Some(job.seed.clone());
                    Reaction::Lease(Lease { seed_str: job.seed, seed, count: job.count })
                },
                None => Reaction::Nothing,
            }
        } else if same(kind.as_str(), "welcome") {
            let nick = member_text(members, "nickname", "?");
            let mut status = "connected ✅ — welcome, ".to_owned();
            status.append(nick.as_str());
            status.append("!");
            stats.nickname = nick;
            stats.total_shuffles = member_number(members, "lifetime_shuffles");
            stats.status = status;
            Reaction::Nothing
        } else if same(kind.as_str(), "credited") {
            stats.shuffles_per_sec = member_number(members, "rate");
            Reaction::Nothing
        } else if same(kind.as_str(), "rejected") {
            let reason = member_text(members, "reason", text);
            stats.show_status("❌ rejected: ", reason.as_str());
            let lowered = to_lowercase(reason.as_str());
            self.retry(lowered.as_str())
        } else if same(kind.as_str(), "banned") {
            Reaction::Cancel
        } else {
            Reaction::Nothing
        }
    }

    /// Takes a message of the server. What is not JSON is passed over.
    pub fn handle_message(&mut self, stats: &mut GuiStatsInner, text: &str) -> (r: Reaction)
        ensures
            (final(self)@, final(stats)@, r@) == match object_members(text@) {
                Some(members) => reacted(old(self)@, old(stats)@, text@, members),
                None => (old(self)@, old(stats)@, ReactionModel::Nothing),
            },
    {
        match read_object(text) {
            Some(members) => self.on_members(stats, text, &members),
            None => Reaction::Nothing,
        }
    }

    /// Takes an event of a standing connection and says what to do about it.
    pub fn on_event(&mut self, stats: &mut GuiStatsInner, event: NetEvent) -> (r: NetAction)
        ensures
            match event {
                NetEvent::Text(text) => {
                    let (d, s, reaction) = match object_members(text@) {
                        Some(members) => reacted(old(self)@, old(stats)@, text@, members),
                        None => (old(self)@, old(stats)@, ReactionModel::Nothing),
                    };
                    &&& final(self)@ == d
                    &&& final(stats)@ == s
                    &&& match reaction {
                        ReactionModel::Nothing => r is Continue,
                        ReactionModel::Lease(l) => r matches NetAction::Lease(lease) && lease@ == l,
                        ReactionModel::Send(t) => r matches NetAction::Send(out) && out@ == t,
                        ReactionModel::Cancel => r is Cancel,
                    }
                },
                NetEvent::Ping(data) => r == NetAction::Pong(data),
                NetEvent::Ignored => r is Continue,
                NetEvent::Closed => r is Lost,
                NetEvent::Report(report) => r matches NetAction::SendReport(out, same) && same
                    == report && out@ == object_text(report_fields(report.seed_str@, report@))
                    && carries(out@, report_fields(report.seed_str@, report@)),
                NetEvent::ReportSent(report) => r is Continue && final(self)@ == (DialogueModel {
                    last_report: Some(report@),
                    ..old(self)@
                }),
                NetEvent::ReportsEnded => r is Leave,
                NetEvent::Cancelled => r matches NetAction::Farewell(out) && out@ == object_text(
                    stop_fields(),
                ) && carries(out@, stop_fields()),
            },
            event matches NetEvent::ReportSent(report) ==> final(self).last_report == Some(report),
            event !is Text ==> final(stats)@ == old(stats)@,
            event !is Text && event !is ReportSent ==> final(self)@ == old(self)@,
    {
        match event {
            NetEvent::Text(text) => match self.handle_message(stats, text.as_str()) {
                Reaction::Nothing => NetAction::Continue,
                Reaction::Lease(lease) => NetAction::Lease(lease),
                Reaction::Send(out) => NetAction::Send(out),
                Reaction::Cancel => NetAction::Cancel,
            },
            NetEvent::Ping(data) => NetAction::Pong(data),
            NetEvent::Ignored => NetAction::Continue,
            NetEvent::Closed => NetAction::Lost,
            NetEvent::Report(report) => {
                let out = report.to_text(&report.seed_str);
                NetAction::SendReport(out, report)
            },
            NetEvent::ReportSent(report) => {
                self.last_report = Some(report);
                NetAction::Continue
            },
            NetEvent::ReportsEnded => NetAction::Leave,
            NetEvent::Cancelled => NetAction::Farewell(stop_text()),
        }
    }
}

/// The first pause before a connection is tried again, in seconds.
pub const FIRST_PAUSE: u64 = 2;

/// The longest pause before a connection is tried again, in seconds.
pub const LONGEST_PAUSE: u64 = 30;

/// The pause that follows a pause.
pub open spec fn next_pause(pause: int) -> int {
    if 2 * pause <= LONGEST_PAUSE {
        2 * pause
    } else {
        LONGEST_PAUSE as int
    }
}

/// How long to pause between attempts to connect.
#[derive(Debug)]
pub struct Backoff {
    pause: u64,
}

impl View for Backoff {
    type V = int;

    closed spec fn view(&self) -> int {
        self.pause as int
    }
}

impl Backoff {
    #[verifier::type_invariant]
    spec fn is_bounded(self) -> bool {
        self.pause <= LONGEST_PAUSE
    }

    /// No attempt has been made.
    pub fn new() -> (r: Self)
        ensures
            r@ == FIRST_PAUSE,
    {
        Backoff { pause: FIRST_PAUSE }
    }

    /// The pause before the next attempt, in seconds.
    pub fn pause(&self) -> (r: u64)
        ensures
            r == self@,
    {
        self.pause
    }

    /// Takes the outcome of a connection: the pause before the next attempt,
    /// or `None` when there is to be none, because the connection was left in
    /// order or the session is ending.
    pub fn after_connection(&mut self, lost: bool, cancelled: bool) -> (r: Option<u64>)
        ensures
            r is Some <==> lost && !cancelled,
            r matches Some(pause) ==> pause == old(self)@ && final(self)@ == next_pause(
                old(self)@,
            ),
            r is None ==> final(self)@ == old(self)@,
    {
        proof {
            use_type_invariant(&*self);
        }
        if lost && !cancelled {
            let pause = self.pause;
            self.pause = if 2 * pause <= LONGEST_PAUSE {
                2 * pause
            } else {
                LONGEST_PAUSE
            };
            Some(pause)
        } else {
            None
        }
    }
}

/// The pause before the attempt that follows `k + 1` lost connections.
pub open spec fn nth_pause(k: nat) -> int
    decreases k,
{
    if k == 0 {
        FIRST_PAUSE as int
    } else {
        next_pause(nth_pause((k - 1) as nat))
    }
}

/// A pause is followed by one of twice its length, up to half a minute.
pub proof fn law_pauses_double(pause: int)
    requires
        0 <= pause <= 30,
    ensures
        pause <= 15 ==> next_pause(pause) == 2 * pause,
        pause >= 15 ==> next_pause(pause) == 30,
{
}

/// Pauses double from the first one up to the longest and stay there.
pub proof fn law_pauses(k: nat)
    ensures
        nth_pause(0) == 2,
        nth_pause(1) == 4,
        nth_pause(2) == 8,
        nth_pause(3) == 16,
        nth_pause(k) <= nth_pause(k + 1) <= LONGEST_PAUSE,
        k >= 4 ==> nth_pause(k) == 30,
    decreases k,
{
    reveal_with_fuel(nth_pause, 5);
    if k > 0 {
        law_pauses((k - 1) as nat);
    }
}

/// Reporting again under another seed changes the seed and nothing else.
pub proof fn law_retry_keeps_the_report(seed: Seq<char>, report: ReportModel, i: int)
    requires
        0 <= i < report_fields(seed, report).len(),
    ensures
        report_fields(seed, report).len() == report_fields(report.seed_str, report).len(),
        report_fields(seed, report)[i].0 == report_fields(report.seed_str, report)[i].0,
        report_fields(seed, report)[i].0 != "seed"@ ==> report_fields(seed, report)[i]
            == report_fields(report.seed_str, report)[i],
{
}

/// A rejected report is made again once: until another job or another report
/// comes, no further rejection is answered.
pub proof fn law_report_is_retried_once(
    d: DialogueModel,
    stats: StatsModel,
    text: Seq<char>,
    members: Seq<(Seq<char>, MemberModel)>,
    stats2: StatsModel,
    text2: Seq<char>,
    members2: Seq<(Seq<char>, MemberModel)>,
)
    requires
        reacted(d, stats, text, members).2 is Send,
        text_or(members2, "type"@, ""@) == "rejected"@,
    ensures
        reacted(reacted(d, stats, text, members).0, stats2, text2, members2).2 is Nothing,
        reacted(reacted(d, stats, text, members).0, stats2, text, members).2 is Nothing,
{
    reveal_strlit("job");
    reveal_strlit("welcome");
    reveal_strlit("credited");
    reveal_strlit("rejected");
    assert("job"@.len() == 3 && "welcome"@.len() == 7);
    assert("credited"@[0] == 'c' && "rejected"@[0] == 'r');
}

/// A report tells the server what was found: the seed that it is made under,
/// how many shuffles were done, the best score and its index, and the winning
/// array, number by number.
pub proof fn law_report_tells_what_was_found(text: Seq<char>, seed: Seq<char>, report: ReportModel)
    requires
        carries(text, report_fields(seed, report)),
        report.best_arr.len() == 25,
    ensures
        object_members(text) matches Some(members) && {
            &&& text_or(members, "type"@, ""@) == "result"@
            &&& text_or(members, "seed"@, ""@) == seed
            &&& number_or_zero(members, "total_done"@) == report.total_done
            &&& number_or_zero(members, "best_correct"@) == report.best_correct
            &&& number_or_zero(members, "best_index"@) == report.best_index
            &&& member_named(members, "best_arr"@) matches Some(MemberModel::List(items))
                && items.len() == 25 && forall|k: int|
                0 <= k < 25 ==> #[trigger] items[k] == Some(report.best_arr[k] as u64)
        },
{
    law_report_is_read_back(
        text,
        "result"@,
        seed,
        report.total_done,
        report.best_correct,
        widened(report.best_arr),
        report.best_index,
    );
    let members = object_members(text)->0;
    if let Some(MemberModel::List(items)) = member_named(members, "best_arr"@) {
        assert forall|k: int| 0 <= k < 25 implies #[trigger] items[k] == Some(
            report.best_arr[k] as u64,
        ) by {
            assert(widened(report.best_arr)[k] == report.best_arr[k]);
        }
    }
}

/// A rejected report is made again only where the reason speaks of the seed
/// and the server has since sent another one. It is then remembered as it was,
/// but under that seed, and nothing else of the dialogue changes.
pub proof fn law_retry_is_for_another_seed(d: DialogueModel, lowered: Seq<char>)
    ensures
        !occurs_in("seed"@, lowered) ==> retry_after(d, lowered) is Nothing,
        d.last_seed_str is None || d.last_report is None ==> retry_after(d, lowered) is Nothing,
        d.last_seed_str matches Some(seed) && d.last_report matches Some(report) && seed
            == report.seed_str ==> retry_after(d, lowered) is Nothing,
        retry_after(d, lowered) is Nothing ==> after_retry(d, lowered) == d,
        retry_after(d, lowered) is Send ==> {
            let after = after_retry(d, lowered);
            &&& after.last_seed_str == d.last_seed_str
            &&& after.last_report matches Some(report) && report.seed_str == d.last_seed_str->0
                && report.total_done == d.last_report->0.total_done && report.best_correct
                == d.last_report->0.best_correct && report.best_arr == d.last_report->0.best_arr
                && report.best_index == d.last_report->0.best_index
        },
        retry_after(d, lowered) is Nothing || retry_after(d, lowered) is Send,
{
}

pub(crate) proof fn lemma_kinds_differ()
    ensures
        "job"@ != "welcome"@ && "job"@ != "credited"@ && "job"@ != "rejected"@ && "job"@
            != "banned"@,
        "welcome"@ != "credited"@ && "welcome"@ != "rejected"@ && "welcome"@ != "banned"@,
        "credited"@ != "rejected"@ && "credited"@ != "banned"@ && "rejected"@ != "banned"@,
{
    reveal_strlit("job");
    reveal_strlit("welcome");
    reveal_strlit("credited");
    reveal_strlit("rejected");
    reveal_strlit("banned");
    assert("job"@.len() == 3 && "welcome"@.len() == 7 && "banned"@.len() == 6);
    assert("credited"@.len() == 8 && "rejected"@.len() == 8);
    assert("credited"@[0] == 'c' && "rejected"@[0] == 'r');
}

/// What a message of each kind does: a job is taken as a lease of its seed and
/// count, and its seed is remembered; a welcome shows the name of the user and
/// the total of their shuffles; a credit shows the rate; a rejection shows its
/// reason; a ban ends the session; a job whose seed is no number, and any other
/// message, does nothing. Nothing of the dialogue or the display changes
/// besides.
pub proof fn law_messages_do_as_they_say(
    d: DialogueModel,
    stats: StatsModel,
    text: Seq<char>,
    members: Seq<(Seq<char>, MemberModel)>,
)
    ensures
        ({
            let kind = text_or(members, "type"@, ""@);
            let (d2, shown, reaction) = reacted(d, stats, text, members);
            &&& kind == "welcome"@ ==> {
                &&& d2 == d
                &&& reaction is Nothing
                &&& shown.nickname == text_or(members, "nickname"@, "?"@)
                &&& shown.total_shuffles == number_or_zero(members, "lifetime_shuffles"@)
                &&& shown.status == "connected ✅ — welcome, "@ + shown.nickname + "!"@
                &&& shown == StatsModel {
                    nickname: shown.nickname,
                    total_shuffles: shown.total_shuffles,
                    status: shown.status,
                    ..stats
                }
            }
            &&& kind == "credited"@ ==> {
                &&& d2 == d
                &&& reaction is Nothing
                &&& shown.shuffles_per_sec == number_or_zero(members, "rate"@)
                &&& shown == StatsModel { shuffles_per_sec: shown.shuffles_per_sec, ..stats }
            }
            &&& kind == "rejected"@ ==> {
                let reason = text_or(members, "reason"@, text);
                &&& shown.status == "❌ rejected: "@ + reason
                &&& shown == StatsModel { status: shown.status, ..stats }
                &&& reaction == retry_after(d, lowercase(reason))
                &&& d2 == after_retry(d, lowercase(reason))
            }
            &&& kind == "banned"@ ==> d2 == d && shown == stats && reaction is Cancel
            &&& kind == "job"@ && spelled_u64(text_or(members, "seed"@, ""@)) is None ==> d2 == d
                && shown == stats && reaction is Nothing
            &&& kind == "job"@ ==> shown == stats && d2.last_report == d.last_report
            &&& kind == "job"@ && spelled_u64(text_or(members, "seed"@, ""@)) is Some ==> {
                &&& d2.last_seed_str == Some(text_or(members, "seed"@, ""@))
                &&& reaction matches ReactionModel::Lease(lease) && lease.seed_str == text_or(
                    members,
                    "seed"@,
                    ""@,
                ) && Some(lease.seed) == spelled_u64(lease.seed_str) && lease.count
                    == number_or_zero(members, "count"@)
            }
            &&& reaction is Cancel ==> kind == "banned"@
            &&& reaction is Lease ==> kind == "job"@
            &&& reaction is Send ==> kind == "rejected"@
            &&& kind != "job"@ && kind != "welcome"@ && kind != "credited"@ && kind != "rejected"@
                && kind != "banned"@ ==> d2 == d && shown == stats && reaction is Nothing
        }),
{
    lemma_kinds_differ();
}

/// The fields of a message that hands out a lease.
pub open spec fn job_fields(seed: Seq<char>, count: u64) -> Seq<(Seq<char>, FieldModel)> {
    seq![
        ("type"@, FieldModel::Text("job"@)),
        ("seed"@, FieldModel::Text(seed)),
        ("count"@, FieldModel::Number(count)),
    ]
}

/// A message that carries a job with a number for a seed becomes a lease of
/// that seed and count, whatever else it carries, and its seed is remembered.
pub proof fn law_job_becomes_a_lease(
    d: DialogueModel,
    stats: StatsModel,
    text: Seq<char>,
    seed_str: Seq<char>,
    count: u64,
)
    requires
        carries(text, job_fields(seed_str, count)),
        spelled_u64(seed_str) is Some,
    ensures
        object_members(text) matches Some(members) && reacted(d, stats, text, members) == (
            DialogueModel { last_seed_str: Some(seed_str), ..d },
            stats,
            ReactionModel::Lease(
                LeaseModel { seed_str, seed: spelled_u64(seed_str)->0, count },
            ),
        ),
{
    let fields = job_fields(seed_str, count);
    let members = object_members(text)->0;
    assert(member_named(members, fields[0].0) == Some(read_back(fields[0].1)));
    assert(member_named(members, fields[1].0) == Some(read_back(fields[1].1)));
    assert(member_named(members, fields[2].0) == Some(read_back(fields[2].1)));
}

/// After a job, a rejected report that speaks of the seed is made again under
/// the seed of that job, unless it was made under it.
pub proof fn law_rejected_seed_is_replaced(
    d: DialogueModel,
    stats: StatsModel,
    text: Seq<char>,
    members: Seq<(Seq<char>, MemberModel)>,
    report: ReportModel,
    lowered: Seq<char>,
)
    requires
        text_or(members, "type"@, ""@) == "job"@,
        spelled_u64(text_or(members, "seed"@, ""@)) is Some,
        occurs_in("seed"@, lowered),
        report.seed_str != text_or(members, "seed"@, ""@),
        d.last_report == Some(report),
    ensures
        retry_after(reacted(d, stats, text, members).0, lowered) == ReactionModel::Send(
            object_text(report_fields(text_or(members, "seed"@, ""@), report)),
        ),
{
}

} // verus!
