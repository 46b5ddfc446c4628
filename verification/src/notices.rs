//! What is noted down of the messages of the server.

use crate::messages::{
    member_models, member_number, member_text, number_or_zero, object_members, read_object,
    text_or, JobMessage, Member, MemberModel,
};
use crate::net::lemma_kinds_differ;
use crate::text::{decimal, parse_u64, push_decimal, same, spelled_u64};
use vstd::prelude::*;
use vstd::string::*;

verus! {

/// A line to note down, by how much it matters.
#[derive(Debug)]
pub enum Notice {
    Info(String),
    Error(String),
    Debug(String),
}

/// The contents of a `Notice`.
pub enum NoticeModel {
    Info(Seq<char>),
    Error(Seq<char>),
    Debug(Seq<char>),
}

impl View for Notice {
    type V = NoticeModel;

    open spec fn view(&self) -> NoticeModel {
        match *self {
            Notice::Info(line) => NoticeModel::Info(line@),
            Notice::Error(line) => NoticeModel::Error(line@),
            Notice::Debug(line) => NoticeModel::Debug(line@),
        }
    }
}

/// What is noted down of a message with the given members; nothing of a job
/// whose seed is no number. The whole text stands in for a reason that is
/// missing.
pub open spec fn noted(text: Seq<char>, members: Seq<(Seq<char>, MemberModel)>) -> Option<
    NoticeModel,
> {
    let kind = text_or(members, "type"@, ""@);
    let number = |key: Seq<char>| decimal(number_or_zero(members, key) as nat);
    if kind == "job"@ {
        let seed = text_or(members, "seed"@, ""@);
        if spelled_u64(seed) is Some {
            Some(NoticeModel::Info("🎯 Job: seed="@ + seed + " count="@ + number("count"@)))
        } else {
            None
        }
    } else if kind == "welcome"@ {
        let nick = text_or(members, "nickname"@, "?"@);
        Some(
            NoticeModel::Info(
                "👋 Welcome "@ + nick + "! lifetime="@ + number("lifetime_shuffles"@),
            ),
        )
    } else if kind == "credited"@ {
        Some(
            NoticeModel::Info(
                "📊 "@ + number("credit"@) + " shuffles | Best: "@ + number("batch_best"@)
                    + " | Rate: "@ + number("rate"@) + "/s"@,
            ),
        )
    } else if kind == "rejected"@ {
        Some(NoticeModel::Error("❌ Rejected: "@ + text_or(members, "reason"@, text)))
    } else if kind == "banned"@ {
        Some(NoticeModel::Error("🔨 Banned: "@ + text_or(members, "reason"@, text)))
    } else {
        Some(NoticeModel::Debug("📨 Server ("@ + kind + "): "@ + text))
    }
}

/// What is noted down of a message with the given members; `text` is the
/// message.
pub fn notice_of(text: &str, members: &Vec<(String, Member)>) -> (r: Option<Notice>)
    ensures
        (match r {
            Some(notice) => Some(notice@),
            None => None,
        }) == noted(text@, member_models(members@)),
{
    let kind = member_text(members, "type", "");
    if same(kind.as_str(), "job") {
        let job = JobMessage::from_members(members);
        match parse_u64(job.seed.as_str()) {
            Some(_) => {
                let mut line = "🎯 Job: seed=".to_owned();
                line.append(job.seed.as_str());
                line.append(" count=");
                push_decimal(&mut line, job.count);
                Some(Notice::Info(line))
            },
            None => None,
        }
    } else if same(kind.as_str(), "welcome") {
        let mut line = "👋 Welcome ".to_owned();
        line.append(member_text(members, "nickname", "?").as_str());
        line.append("! lifetime=");
        push_decimal(&mut line, member_number(members, "lifetime_shuffles"));
        Some(Notice::Info(line))
    } else if same(kind.as_str(), "credited") {
        let mut line = "📊 ".to_owned();
        push_decimal(&mut line, member_number(members, "credit"));
        line.append(" shuffles | Best: ");
        push_decimal(&mut line, member_number(members, "batch_best"));
        line.append(" | Rate: ");
        push_decimal(&mut line, member_number(members, "rate"));
        line.append("/s");
        Some(Notice::Info(line))
    } else if same(kind.as_str(), "rejected") {
        let mut line = "❌ Rejected: ".to_owned();
        line.append(member_text(members, "reason", text).as_str());
        Some(Notice::Error(line))
    } else if same(kind.as_str(), "banned") {
        let mut line = "🔨 Banned: ".to_owned();
        line.append(member_text(members, "reason", text).as_str());
        Some(Notice::Error(line))
    } else {
        let mut line = "📨 Server (".to_owned();
        line.append(kind.as_str());
        line.append("): ");
        line.append(text);
        Some(Notice::Debug(line))
    }
}

/// What is noted down tells what the message says: of a job its seed and
/// count, of a welcome the name and the total, of a credit the shuffles, their
/// best and their rate, of a rejection and of a ban the reason, as errors. Any
/// other message is noted down whole, for those who look for it.
pub proof fn law_notices_tell_the_message(
    text: Seq<char>,
    members: Seq<(Seq<char>, MemberModel)>,
    kind: Seq<char>,
)
    requires
        kind == text_or(members, "type"@, ""@),
    ensures
        kind == "job"@ ==> noted(text, members) == if spelled_u64(
            text_or(members, "seed"@, ""@),
        ) is Some {
            Some(
                NoticeModel::Info(
                    "🎯 Job: seed="@ + text_or(members, "seed"@, ""@) + " count="@ + decimal(
                        number_or_zero(members, "count"@) as nat,
                    ),
                ),
            )
        } else {
            None
        },
        kind == "welcome"@ ==> noted(text, members) == Some(
            NoticeModel::Info(
                "👋 Welcome "@ + text_or(members, "nickname"@, "?"@) + "! lifetime="@ + decimal(
                    number_or_zero(members, "lifetime_shuffles"@) as nat,
                ),
            ),
        ),
        kind == "credited"@ ==> noted(text, members) == Some(
            NoticeModel::Info(
                "📊 "@ + decimal(number_or_zero(members, "credit"@) as nat)
                    + " shuffles | Best: "@ + decimal(
                    number_or_zero(members, "batch_best"@) as nat,
                ) + " | Rate: "@ + decimal(number_or_zero(members, "rate"@) as nat) + "/s"@,
            ),
        ),
        kind == "rejected"@ ==> noted(text, members) == Some(
            NoticeModel::Error("❌ Rejected: "@ + text_or(members, "reason"@, text)),
        ),
        kind == "banned"@ ==> noted(text, members) == Some(
            NoticeModel::Error("🔨 Banned: "@ + text_or(members, "reason"@, text)),
        ),
        kind != "job"@ && kind != "welcome"@ && kind != "credited"@ && kind != "rejected"@ && kind
            != "banned"@ ==> noted(text, members) == Some(
            NoticeModel::Debug("📨 Server ("@ + kind + "): "@ + text),
        ),
{
    lemma_kinds_differ();
}

/// What is noted down of a message of the server; nothing of what is not JSON.
pub fn notice(text: &str) -> (r: Option<Notice>)
    ensures
        (match r {
            Some(notice) => Some(notice@),
            None => None,
        }) == match object_members(text@) {
            Some(members) => noted(text@, members),
            None => None,
        },
{
    match read_object(text) {
        Some(members) => notice_of(text, &members),
        None => None,
    }
}

} // verus!
