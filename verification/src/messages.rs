//! The messages that go between the worker and the server, as JSON objects.

use crate::config::{UserConfig, UserModel};
use serde_json::{Map as JsonMap, Value as JsonValue};
use vstd::prelude::*;

verus! {

/// The version of the dialogue.
pub const PROTOCOL_VERSION: u32 = 5;

/// A value that is written into a message.
#[derive(Debug)]
pub enum Field {
    Text(String),
    Number(u64),
    Numbers(Vec<u32>),
}

/// A value that is read from a message. Only texts and whole numbers without a
/// sign are told apart further, also in a list.
#[derive(Debug)]
pub enum Member {
    Null,
    Flag(bool),
    /// A number, with its value where that is whole and not negative.
    Number(Option<u64>),
    Text(String),
    /// A list, with the values of those elements that are such numbers.
    List(Vec<Option<u64>>),
    Object,
}

/// A JSON value: an object with its members, or another value.
#[derive(Debug)]
pub enum Json {
    Object(Vec<(String, Member)>),
    Other(Member),
}

/// The contents of a `Field`.
pub enum FieldModel {
    Text(Seq<char>),
    Number(u64),
    Numbers(Seq<u32>),
}

/// The contents of a `Member`.
pub enum MemberModel {
    Null,
    Flag(bool),
    Number(Option<u64>),
    Text(Seq<char>),
    List(Seq<Option<u64>>),
    Object,
}

/// The contents of a `Json`.
pub enum JsonModel {
    Object(Seq<(Seq<char>, MemberModel)>),
    Other(MemberModel),
}

impl View for Field {
    type V = FieldModel;

    open spec fn view(&self) -> FieldModel {
        match *self {
            Field::Text(s) => FieldModel::Text(s@),
            Field::Number(n) => FieldModel::Number(n),
            Field::Numbers(v) => FieldModel::Numbers(v@),
        }
    }
}

impl View for Member {
    type V = MemberModel;

    open spec fn view(&self) -> MemberModel {
        match *self {
            Member::Null => MemberModel::Null,
            Member::Flag(b) => MemberModel::Flag(b),
            Member::Number(n) => MemberModel::Number(n),
            Member::Text(s) => MemberModel::Text(s@),
            Member::List(items) => MemberModel::List(items@),
            Member::Object => MemberModel::Object,
        }
    }
}

impl View for Json {
    type V = JsonModel;

    open spec fn view(&self) -> JsonModel {
        match *self {
            Json::Object(members) => JsonModel::Object(member_models(members@)),
            Json::Other(value) => JsonModel::Other(value@),
        }
    }
}

/// The contents of the fields of a message.
pub open spec fn field_models(fields: Seq<(String, Field)>) -> Seq<(Seq<char>, FieldModel)> {
    fields.map_values(|f: (String, Field)| (f.0@, f.1@))
}

/// The contents of the members of a message.
pub open spec fn member_models(members: Seq<(String, Member)>) -> Seq<(Seq<char>, MemberModel)> {
    members.map_values(|m: (String, Member)| (m.0@, m.1@))
}

/// The value of the first member with the given key.
pub open spec fn member_named(members: Seq<(Seq<char>, MemberModel)>, key: Seq<char>) -> Option<
    MemberModel,
>
    decreases members.len(),
{
    if members.len() == 0 {
        None
    } else if members[0].0 == key {
        Some(members[0].1)
    } else {
        member_named(members.drop_first(), key)
    }
}

/// The text under a key.
pub open spec fn text_named(members: Seq<(Seq<char>, MemberModel)>, key: Seq<char>) -> Option<
    Seq<char>,
> {
    match member_named(members, key) {
        Some(MemberModel::Text(s)) => Some(s),
        _ => None,
    }
}

/// The number under a key.
pub open spec fn number_named(members: Seq<(Seq<char>, MemberModel)>, key: Seq<char>) -> Option<
    u64,
> {
    match member_named(members, key) {
        Some(MemberModel::Number(n)) => n,
        _ => None,
    }
}

/// The text under a key, or another text where there is none.
pub open spec fn text_or(
    members: Seq<(Seq<char>, MemberModel)>,
    key: Seq<char>,
    otherwise: Seq<char>,
) -> Seq<char> {
    match text_named(members, key) {
        Some(s) => s,
        None => otherwise,
    }
}

/// The number under a key, or zero where there is none.
pub open spec fn number_or_zero(members: Seq<(Seq<char>, MemberModel)>, key: Seq<char>) -> u64 {
    match number_named(members, key) {
        Some(n) => n,
        None => 0,
    }
}

/// Whether no two fields have the same key.
pub open spec fn keys_differ(fields: Seq<(Seq<char>, FieldModel)>) -> bool {
    forall|i: int, j: int|
        0 <= i < j < fields.len() ==> (#[trigger] fields[i]).0 != (#[trigger] fields[j]).0
}

/// What is read back of a field that was written.
pub open spec fn read_back(field: FieldModel) -> MemberModel {
    match field {
        FieldModel::Text(s) => MemberModel::Text(s),
        FieldModel::Number(n) => MemberModel::Number(Some(n)),
        FieldModel::Numbers(v) => MemberModel::List(v.map_values(|n: u32| Some(n as u64))),
    }
}

/// Whether a message carries each of the fields.
pub open spec fn carries(text: Seq<char>, fields: Seq<(Seq<char>, FieldModel)>) -> bool {
    object_members(text) matches Some(members) && forall|i: int|
        0 <= i < fields.len() ==> member_named(members, (#[trigger] fields[i]).0) == Some(
            read_back(fields[i].1),
        )
}

/// The JSON text of an object with the given fields.
pub uninterp spec fn object_text(fields: Seq<(Seq<char>, FieldModel)>) -> Seq<char>;

/// The JSON value that a text holds, `None` where it holds none.
pub uninterp spec fn json_value(text: Seq<char>) -> Option<JsonModel>;

/// The members of the JSON object that a text holds: none where the text holds
/// another JSON value, `None` where it holds no JSON value.
pub open spec fn object_members(text: Seq<char>) -> Option<Seq<(Seq<char>, MemberModel)>> {
    match json_value(text) {
        Some(JsonModel::Object(members)) => Some(members),
        Some(JsonModel::Other(_)) => Some(Seq::empty()),
        None => None,
    }
}

/// The JSON text of an object, by `serde_json`'s `Value::to_string` on a
/// `Value::Object`.
///
/// The text itself is only named. Claimed of it: where no two fields have the
/// same key, parsing the text gives every field back.
#[verifier::external_body]
fn write_object(fields: &Vec<(String, Field)>) -> (r: String)
    ensures
        r@ == object_text(field_models(fields@)),
        keys_differ(field_models(fields@)) ==> carries(r@, field_models(fields@)),
{
    let entries = fields.iter().map(|(key, field)| {
        let value = match field {
            Field::Text(s) => JsonValue::from(s.as_str()),
            Field::Number(n) => JsonValue::from(*n),
            Field::Numbers(v) => JsonValue::from(v.clone()),
        };
        (key.clone(), value)
    });
    JsonValue::Object(entries.collect::<JsonMap<String, JsonValue>>()).to_string()
}

/// A JSON value, by `serde_json::from_str` to a `Value`; it is only named.
#[verifier::external_body]
fn read_json(text: &str) -> (r: Option<Json>)
    ensures
        (match r {
            Some(value) => Some(value@),
            None => None,
        }) == json_value(text@),
{
    let member = |value: JsonValue| match value {
        JsonValue::Null => Member::Null,
        JsonValue::Bool(b) => Member::Flag(b),
        JsonValue::Number(n) => Member::Number(n.as_u64()),
        JsonValue::String(s) => Member::Text(s),
        JsonValue::Array(items) => Member::List(items.iter().map(JsonValue::as_u64).collect()),
        JsonValue::Object(_) => Member::Object,
    };
    Some(match serde_json::from_str::<JsonValue>(text).ok()? {
        JsonValue::Object(m) => Json::Object(m.into_iter().map(|(k, v)| (k, member(v))).collect()),
        other => Json::Other(member(other)),
    })
}

/// The members of the JSON object that a text holds: none where it holds
/// another JSON value, `None` where it holds no JSON value.
pub fn read_object(text: &str) -> (r: Option<Vec<(String, Member)>>)
    ensures
        (match r {
            Some(members) => Some(member_models(members@)),
            None => None,
        }) == object_members(text@),
{
    match read_json(text) {
        Some(Json::Object(members)) => Some(members),
        Some(Json::Other(_)) => {
            let members: Vec<(String, Member)> = Vec::new();
            proof {
                assert(member_models(members@) =~= Seq::empty());
            }
            Some(members)
        },
        None => None,
    }
}

/// Where the first member with the given key stands.
fn find(members: &Vec<(String, Member)>, key: &str) -> (r: Option<usize>)
    ensures
        match r {
            Some(i) => i < members.len() && member_named(member_models(members@), key@) == Some(
                members@[i as int].1@,
            ),
            None => member_named(member_models(members@), key@) is None,
        },
{
    let wanted = key.to_owned();
    let ghost all = member_models(members@);
    let mut i: usize = 0;
    proof {
        assert(all.skip(0) =~= all);
    }
    while i < members.len()
        invariant
            i <= members.len(),
            wanted@ == key@,
            all == member_models(members@),
            member_named(all, key@) == member_named(all.skip(i as int), key@),
        decreases members.len() - i,
    {
        proof {
            assert(all.skip(i as int)[0] == (members@[i as int].0@, members@[i as int].1@));
            assert(all.skip(i as int).drop_first() =~= all.skip(i + 1));
        }
        if members[i].0 == wanted {
            return Some(i);
        }
        i = i + 1;
    }
    None
}

/// The text under a key, or another text where there is none.
pub fn member_text(members: &Vec<(String, Member)>, key: &str, otherwise: &str) -> (r: String)
    ensures
        r@ == text_or(member_models(members@), key@, otherwise@),
{
    match find(members, key) {
        Some(i) => match &members[i].1 {
            Member::Text(s) => s.clone(),
            _ => otherwise.to_owned(),
        },
        None => otherwise.to_owned(),
    }
}

/// The number under a key, or zero where there is none.
pub fn member_number(members: &Vec<(String, Member)>, key: &str) -> (r: u64)
    ensures
        r == number_or_zero(member_models(members@), key@),
{
    match find(members, key) {
        Some(i) => match &members[i].1 {
            Member::Number(Some(n)) => *n,
            _ => 0,
        },
        None => 0,
    }
}

/// How the worker introduces itself.
#[derive(Debug)]
pub struct HelloMessage {
    pub msg_type: String,
    pub v: u32,
    pub uuid: String,
    pub nickname: String,
    pub code: String,
}

/// How the server hands out a lease.
#[derive(Debug)]
pub struct JobMessage {
    pub msg_type: String,
    pub seed: String,
    pub count: u64,
}

/// How the worker reports.
#[derive(Debug)]
pub struct ResultMessage {
    pub msg_type: String,
    pub seed: String,
    pub total_done: u64,
    pub best_correct: u32,
    pub best_arr: Vec<u32>,
    pub best_index: u64,
}

/// The fields of an introduction.
pub open spec fn hello_fields(
    msg_type: Seq<char>,
    v: u32,
    user: UserModel,
) -> Seq<(Seq<char>, FieldModel)> {
    seq![
        ("type"@, FieldModel::Text(msg_type)),
        ("v"@, FieldModel::Number(v as u64)),
        ("uuid"@, FieldModel::Text(user.uuid)),
        ("nickname"@, FieldModel::Text(user.nickname)),
        ("code"@, FieldModel::Text(user.code)),
    ]
}

/// The fields of a report.
pub open spec fn result_fields(
    msg_type: Seq<char>,
    seed: Seq<char>,
    total_done: u64,
    best_correct: u32,
    best_arr: Seq<u32>,
    best_index: u64,
) -> Seq<(Seq<char>, FieldModel)> {
    seq![
        ("type"@, FieldModel::Text(msg_type)),
        ("seed"@, FieldModel::Text(seed)),
        ("total_done"@, FieldModel::Number(total_done)),
        ("best_correct"@, FieldModel::Number(best_correct as u64)),
        ("best_arr"@, FieldModel::Numbers(best_arr)),
        ("best_index"@, FieldModel::Number(best_index)),
    ]
}

/// The fields of a farewell.
pub open spec fn stop_fields() -> Seq<(Seq<char>, FieldModel)> {
    seq![("type"@, FieldModel::Text("stop"@))]
}

proof fn lemma_hello_keys_differ(msg_type: Seq<char>, v: u32, user: UserModel)
    ensures
        keys_differ(hello_fields(msg_type, v, user)),
{
    reveal_strlit("type");
    reveal_strlit("v");
    reveal_strlit("uuid");
    reveal_strlit("nickname");
    reveal_strlit("code");
    let fields = hello_fields(msg_type, v, user);
    assert("type"@[0] == 't' && "uuid"@[0] == 'u' && "code"@[0] == 'c');
    assert forall|i: int, j: int| 0 <= i < j < fields.len() implies (#[trigger] fields[i]).0 != (
    #[trigger] fields[j]).0 by {
        assert(fields[i].0.len() != fields[j].0.len() || fields[i].0[0] != fields[j].0[0]);
    }
}

proof fn lemma_result_keys_differ(
    msg_type: Seq<char>,
    seed: Seq<char>,
    total_done: u64,
    best_correct: u32,
    best_arr: Seq<u32>,
    best_index: u64,
)
    ensures
        keys_differ(result_fields(msg_type, seed, total_done, best_correct, best_arr, best_index)),
{
    reveal_strlit("type");
    reveal_strlit("seed");
    reveal_strlit("total_done");
    reveal_strlit("best_correct");
    reveal_strlit("best_arr");
    reveal_strlit("best_index");
    let fields = result_fields(msg_type, seed, total_done, best_correct, best_arr, best_index);
    assert("type"@[0] == 't' && "seed"@[0] == 's');
    assert("total_done"@[0] == 't' && "best_index"@[0] == 'b');
    assert forall|i: int, j: int| 0 <= i < j < fields.len() implies (#[trigger] fields[i]).0 != (
    #[trigger] fields[j]).0 by {
        assert(fields[i].0.len() != fields[j].0.len() || fields[i].0[0] != fields[j].0[0]);
    }
}

impl Clone for HelloMessage {
    fn clone(&self) -> (r: Self)
        ensures
            r.msg_type@ == self.msg_type@,
            r.v == self.v,
            r.uuid@ == self.uuid@,
            r.nickname@ == self.nickname@,
            r.code@ == self.code@,
    {
        HelloMessage {
            msg_type: self.msg_type.clone(),
            v: self.v,
            uuid: self.uuid.clone(),
            nickname: self.nickname.clone(),
            code: self.code.clone(),
        }
    }
}

impl HelloMessage {
    /// The introduction of a user.
    pub fn for_user(user: &UserConfig) -> (r: Self)
        ensures
            r.msg_type@ == "hello"@,
            r.v == PROTOCOL_VERSION,
            r.uuid@ == user.uuid@,
            r.nickname@ == user.nickname@,
            r.code@ == user.code@,
    {
        HelloMessage {
            msg_type: "hello".to_owned(),
            v: PROTOCOL_VERSION,
            uuid: user.uuid.clone(),
            nickname: user.nickname.clone(),
            code: user.code.clone(),
        }
    }

    /// The message as it is sent.
    pub fn to_text(&self) -> (r: String)
        ensures
            r@ == object_text(
                hello_fields(
                    self.msg_type@,
                    self.v,
                    (UserModel { uuid: self.uuid@, nickname: self.nickname@, code: self.code@ }),
                ),
            ),
            carries(
                r@,
                hello_fields(
                    self.msg_type@,
                    self.v,
                    (UserModel { uuid: self.uuid@, nickname: self.nickname@, code: self.code@ }),
                ),
            ),
    {
        let mut fields: Vec<(String, Field)> = Vec::new();
        fields.push(("type".to_owned(), Field::Text(self.msg_type.clone())));
        fields.push(("v".to_owned(), Field::Number(self.v as u64)));
        fields.push(("uuid".to_owned(), Field::Text(self.uuid.clone())));
        fields.push(("nickname".to_owned(), Field::Text(self.nickname.clone())));
        fields.push(("code".to_owned(), Field::Text(self.code.clone())));
        proof {
            let user = UserModel {
                uuid: self.uuid@,
                nickname: self.nickname@,
                code: self.code@,
            };
            assert(field_models(fields@) =~= hello_fields(self.msg_type@, self.v, user));
            lemma_hello_keys_differ(self.msg_type@, self.v, user);
        }
        write_object(&fields)
    }
}

impl Clone for JobMessage {
    fn clone(&self) -> (r: Self)
        ensures
            r.msg_type@ == self.msg_type@,
            r.seed@ == self.seed@,
            r.count == self.count,
    {
        JobMessage {
            msg_type: self.msg_type.clone(),
            seed: self.seed.clone(),
            count: self.count,
        }
    }
}

impl JobMessage {
    /// Reads a lease from the members of a message; what is missing is empty.
    pub fn from_members(members: &Vec<(String, Member)>) -> (r: Self)
        ensures
            r.msg_type@ == text_or(member_models(members@), "type"@, ""@),
            r.seed@ == text_or(member_models(members@), "seed"@, ""@),
            r.count == number_or_zero(member_models(members@), "count"@),
    {
        JobMessage {
            msg_type: member_text(members, "type", ""),
            seed: member_text(members, "seed", ""),
            count: member_number(members, "count"),
        }
    }
}

/// Of several members with the same key the first counts, and where no member
/// has the key there is none.
pub proof fn law_first_member_counts(
    members: Seq<(Seq<char>, MemberModel)>,
    key: Seq<char>,
    i: int,
)
    ensures
        0 <= i < members.len() && members[i].0 == key && (forall|k: int|
            0 <= k < i ==> (#[trigger] members[k]).0 != key) ==> member_named(members, key) == Some(
            members[i].1,
        ),
        (forall|k: int| 0 <= k < members.len() ==> (#[trigger] members[k]).0 != key)
            ==> member_named(members, key) is None,
    decreases members.len(),
{
    if members.len() > 0 {
        let rest = members.drop_first();
        law_first_member_counts(rest, key, i - 1);
        if members[0].0 != key {
            assert(forall|k: int|
                0 <= k < rest.len() ==> #[trigger] rest[k] == members[k + 1]);
            if 0 <= i < members.len() && members[i].0 == key && (forall|k: int|
                0 <= k < i ==> (#[trigger] members[k]).0 != key) {
                assert(rest[i - 1] == members[i]);
                assert forall|k: int| 0 <= k < i - 1 implies (#[trigger] rest[k]).0 != key by {
                    assert(members[k + 1].0 != key);
                }
            }
            if forall|k: int| 0 <= k < members.len() ==> (#[trigger] members[k]).0 != key {
                assert forall|k: int| 0 <= k < rest.len() implies (#[trigger] rest[k]).0
                    != key by {
                    assert(members[k + 1].0 != key);
                }
            }
        }
    }
}

/// What is read under a key is the text or the number that stands there, and
/// what stands in for it where there is none of the kind.
pub proof fn law_members_are_read(
    members: Seq<(Seq<char>, MemberModel)>,
    key: Seq<char>,
    otherwise: Seq<char>,
    text: Seq<char>,
    n: u64,
)
    ensures
        member_named(members, key) == Some(MemberModel::Text(text)) ==> text_or(
            members,
            key,
            otherwise,
        ) == text,
        !(member_named(members, key) matches Some(MemberModel::Text(_))) ==> text_or(
            members,
            key,
            otherwise,
        ) == otherwise,
        member_named(members, key) == Some(MemberModel::Number(Some(n))) ==> number_or_zero(
            members,
            key,
        ) == n,
        !(member_named(members, key) matches Some(MemberModel::Number(Some(_))))
            ==> number_or_zero(members, key) == 0,
{
}

/// A message that carries the fields of a report can be read back: its kind,
/// seed and numbers under their keys, and under "best_arr" the numbers of the
/// list in their order.
pub proof fn law_report_is_read_back(
    text: Seq<char>,
    msg_type: Seq<char>,
    seed: Seq<char>,
    total_done: u64,
    best_correct: u32,
    best_arr: Seq<u32>,
    best_index: u64,
)
    requires
        carries(
            text,
            result_fields(msg_type, seed, total_done, best_correct, best_arr, best_index),
        ),
    ensures
        object_members(text) matches Some(members) && {
            &&& text_or(members, "type"@, ""@) == msg_type
            &&& text_or(members, "seed"@, ""@) == seed
            &&& number_or_zero(members, "total_done"@) == total_done
            &&& number_or_zero(members, "best_correct"@) == best_correct
            &&& number_or_zero(members, "best_index"@) == best_index
            &&& member_named(members, "best_arr"@) matches Some(MemberModel::List(items))
                && items.len() == best_arr.len() && forall|k: int|
                0 <= k < best_arr.len() ==> #[trigger] items[k] == Some(best_arr[k] as u64)
        },
{
    let fields = result_fields(msg_type, seed, total_done, best_correct, best_arr, best_index);
    let members = object_members(text)->0;
    assert forall|i: int| 0 <= i < 6 implies member_named(members, (#[trigger] fields[i]).0)
        == Some(read_back(fields[i].1)) by {}
    assert(fields[0].0 == "type"@ && fields[1].0 == "seed"@ && fields[2].0 == "total_done"@);
    assert(fields[3].0 == "best_correct"@ && fields[4].0 == "best_arr"@ && fields[5].0
        == "best_index"@);
}

/// A message that carries the fields of an introduction tells who the user is.
pub proof fn law_introduction_is_read_back(
    text: Seq<char>,
    msg_type: Seq<char>,
    v: u32,
    user: UserModel,
)
    requires
        carries(text, hello_fields(msg_type, v, user)),
    ensures
        object_members(text) matches Some(members) && {
            &&& text_or(members, "type"@, ""@) == msg_type
            &&& number_or_zero(members, "v"@) == v
            &&& text_or(members, "uuid"@, ""@) == user.uuid
            &&& text_or(members, "nickname"@, ""@) == user.nickname
            &&& text_or(members, "code"@, ""@) == user.code
        },
{
    let fields = hello_fields(msg_type, v, user);
    let members = object_members(text)->0;
    assert forall|i: int| 0 <= i < 5 implies member_named(members, (#[trigger] fields[i]).0)
        == Some(read_back(fields[i].1)) by {}
    assert(fields[0].0 == "type"@ && fields[1].0 == "v"@ && fields[2].0 == "uuid"@);
    assert(fields[3].0 == "nickname"@ && fields[4].0 == "code"@);
}

/// A message that carries the fields of a farewell says that it is one.
pub proof fn law_farewell_is_read_back(text: Seq<char>)
    requires
        carries(text, stop_fields()),
    ensures
        object_members(text) matches Some(members) && text_or(members, "type"@, ""@) == "stop"@,
{
    assert(stop_fields()[0].0 == "type"@);
}

/// The numbers of an array, widened.
pub open spec fn widened(arr: Seq<u8>) -> Seq<u32> {
    arr.map_values(|v: u8| v as u32)
}

impl Clone for ResultMessage {
    fn clone(&self) -> (r: Self)
        ensures
            r.msg_type@ == self.msg_type@,
            r.seed@ == self.seed@,
            r.total_done == self.total_done,
            r.best_correct == self.best_correct,
            r.best_arr@ == self.best_arr@,
            r.best_index == self.best_index,
    {
        ResultMessage {
            msg_type: self.msg_type.clone(),
            seed: self.seed.clone(),
            total_done: self.total_done,
            best_correct: self.best_correct,
            best_arr: copy_numbers(&self.best_arr),
            best_index: self.best_index,
        }
    }
}

impl ResultMessage {
    /// A report on the shuffles of a seed.
    pub fn new(
        seed: &String,
        total_done: u64,
        best_correct: u32,
        best_arr: &[u8; 25],
        best_index: u64,
    ) -> (r: Self)
        ensures
            r.msg_type@ == "result"@,
            r.seed@ == seed@,
            r.total_done == total_done,
            r.best_correct == best_correct,
            r.best_arr@ == widened(best_arr@),
            r.best_arr@.len() == 25,
            forall|k: int| 0 <= k < 25 ==> #[trigger] r.best_arr@[k] == best_arr@[k],
            r.best_index == best_index,
    {
        let mut arr: Vec<u32> = Vec::new();
        let mut i: usize = 0;
        while i < 25
            invariant
                i <= 25,
                arr.len() == i,
                forall|k: int| 0 <= k < i ==> #[trigger] arr@[k] == best_arr@[k],
            decreases 25 - i,
        {
            arr.push(best_arr[i] as u32);
            i = i + 1;
        }
        proof {
            assert(arr@ =~= widened(best_arr@));
        }
        ResultMessage {
            msg_type: "result".to_owned(),
            seed: seed.clone(),
            total_done,
            best_correct,
            best_arr: arr,
            best_index,
        }
    }

    /// The message as it is sent.
    pub fn to_text(&self) -> (r: String)
        ensures
            r@ == object_text(
                result_fields(
                    self.msg_type@,
                    self.seed@,
                    self.total_done,
                    self.best_correct,
                    self.best_arr@,
                    self.best_index,
                ),
            ),
            carries(
                r@,
                result_fields(
                    self.msg_type@,
                    self.seed@,
                    self.total_done,
                    self.best_correct,
                    self.best_arr@,
                    self.best_index,
                ),
            ),
    {
        let mut fields: Vec<(String, Field)> = Vec::new();
        fields.push(("type".to_owned(), Field::Text(self.msg_type.clone())));
        fields.push(("seed".to_owned(), Field::Text(self.seed.clone())));
        fields.push(("total_done".to_owned(), Field::Number(self.total_done)));
        fields.push(("best_correct".to_owned(), Field::Number(self.best_correct as u64)));
        let numbers = copy_numbers(&self.best_arr);
        fields.push(("best_arr".to_owned(), Field::Numbers(numbers)));
        fields.push(("best_index".to_owned(), Field::Number(self.best_index)));
        proof {
            assert(field_models(fields@) =~= result_fields(
                self.msg_type@,
                self.seed@,
                self.total_done,
                self.best_correct,
                self.best_arr@,
                self.best_index,
            ));
            lemma_result_keys_differ(
                self.msg_type@,
                self.seed@,
                self.total_done,
                self.best_correct,
                self.best_arr@,
                self.best_index,
            );
        }
        write_object(&fields)
    }
}

fn copy_numbers(v: &Vec<u32>) -> (r: Vec<u32>)
    ensures
        r@ == v@,
{
    let mut out: Vec<u32> = Vec::new();
    let mut i: usize = 0;
    while i < v.len()
        invariant
            i <= v.len(),
            out@ == v@.take(i as int),
        decreases v.len() - i,
    {
        out.push(v[i]);
        proof {
            assert(out@ =~= v@.take(i + 1));
        }
        i = i + 1;
    }
    proof {
        assert(out@ =~= v@);
    }
    out
}

/// The message that ends a session.
pub fn stop_text() -> (r: String)
    ensures
        r@ == object_text(stop_fields()),
        carries(r@, stop_fields()),
{
    let mut fields: Vec<(String, Field)> = Vec::new();
    fields.push(("type".to_owned(), Field::Text("stop".to_owned())));
    proof {
        assert(field_models(fields@) =~= stop_fields());
    }
    write_object(&fields)
}

} // verus!
