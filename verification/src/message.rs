//! The messages the bot sends, and what it reads in those it receives.
use crate::json::{
    distinct_names, json_content, json_text, member, members, number, object, render, text, Json,
};
use crate::protocol::PROTOCOL_VERSION;
use vstd::prelude::*;

verus! {

/// Whether the bot asks for a match against other players or for practice.
pub const VERSUS_PLAYERS: bool = false;

/// A message as it comes in: a command and its arguments.
#[derive(Debug)]
pub struct WsMsg {
    pub command: String,
    pub args: serde_json::Value,
}

/// The document of a message.
pub open spec fn envelope(command: Seq<char>, args: Json) -> Json {
    Json::Object(map!["command"@ => Json::Text(command), "args"@ => args])
}

/// The arguments of an order to a hero.
pub open spec fn order_args(hero_id: int, x: int, y: int, comment: Seq<char>) -> Json {
    Json::Object(
        map![
            "hero_id"@ => Json::Int(hero_id),
            "x"@ => Json::Int(x),
            "y"@ => Json::Int(y),
            "comment"@ => Json::Text(comment),
        ],
    )
}

/// The arguments of a login.
pub open spec fn login_args() -> Json {
    Json::Object(
        map![
            "name"@ => Json::Text("Damoc_Damian"@),
            "version"@ => Json::Int(PROTOCOL_VERSION as int),
        ],
    )
}

/// The text of a message with any arguments.
pub fn message_text(command: &str, args: serde_json::Value) -> (message: String)
    ensures
        message@ == json_text(envelope(command@, json_content(args))),
{
    let ghost inner = json_content(args);
    let mut fields: Vec<(String, serde_json::Value)> = Vec::new();
    fields.push(("command".to_owned(), text(command)));
    fields.push(("args".to_owned(), args));
    proof {
        reveal_strlit("command");
        reveal_strlit("args");
        assert("command"@.len() != "args"@.len());
        reveal_with_fuel(members, 3);
        assert(fields@.drop_last().drop_last() =~= Seq::empty());
        assert(members(fields@) =~= map!["command"@ => Json::Text(command@), "args"@ => inner]);
    }
    render(&object(fields)).unwrap()
}

/// The text of an order to a hero to do something about a point.
pub fn order_text(command: &str, hero_id: i32, x: i32, y: i32, comment: &str) -> (message: String)
    ensures
        message@ == json_text(
            envelope(command@, order_args(hero_id as int, x as int, y as int, comment@)),
        ),
{
    let mut args: Vec<(String, serde_json::Value)> = Vec::new();
    args.push(("hero_id".to_owned(), number(hero_id)));
    args.push(("x".to_owned(), number(x)));
    args.push(("y".to_owned(), number(y)));
    args.push(("comment".to_owned(), text(comment)));
    proof {
        reveal_strlit("hero_id");
        reveal_strlit("x");
        reveal_strlit("y");
        reveal_strlit("comment");
        assert("x"@.len() == 1 && "hero_id"@.len() == 7);
        assert("hero_id"@[0] != "comment"@[0]);
        assert("x"@[0] != "y"@[0]);
        assert(distinct_names(args@));
        reveal_with_fuel(members, 5);
        let one = args@.drop_last().drop_last().drop_last();
        assert(one.drop_last() =~= Seq::empty());
        assert(Json::Object(members(args@)) =~= order_args(
            hero_id as int,
            x as int,
            y as int,
            comment@,
        ));
    }
    message_text(command, object(args))
}

/// The text of the answer to a greeting.
pub fn login_text() -> (message: String)
    ensures
        message@ == json_text(envelope("LOGIN"@, login_args())),
{
    let mut args: Vec<(String, serde_json::Value)> = Vec::new();
    args.push(("name".to_owned(), text("Damoc_Damian")));
    args.push(("version".to_owned(), number(PROTOCOL_VERSION)));
    proof {
        reveal_strlit("name");
        reveal_strlit("version");
        assert("name"@.len() != "version"@.len());
        assert(distinct_names(args@));
        reveal_with_fuel(members, 3);
        assert(args@.drop_last().drop_last() =~= Seq::empty());
        assert(Json::Object(members(args@)) =~= login_args());
    }
    message_text("LOGIN", object(args))
}

/// The text by which the bot asks for a match.
pub fn match_request_text() -> (message: String)
    ensures
        message@ == json_text(
            envelope(
                if VERSUS_PLAYERS {
                    "CHALLENGE"@
                } else {
                    "PRACTICE"@
                },
                Json::Object(Map::empty()),
            ),
        ),
{
    let args: Vec<(String, serde_json::Value)> = Vec::new();
    assert(members(args@) =~= Map::empty());
    if VERSUS_PLAYERS {
        message_text("CHALLENGE", object(args))
    } else {
        message_text("PRACTICE", object(args))
    }
}

/// An error document says that the error is fatal: its member `fatal` is true.
pub open spec fn says_fatal(content: Json) -> bool {
    content matches Json::Object(fields) && fields.contains_key("fatal"@) && fields["fatal"@]
        == Json::Bool(true)
}

/// Whether the arguments of an `ERROR` say that the error is fatal.
pub fn error_is_fatal(args: &serde_json::Value) -> (fatal: bool)
    ensures
        fatal == says_fatal(json_content(*args)),
{
    match member(args, "fatal").as_bool() {
        Some(fatal) => fatal,
        None => false,
    }
}

/// A message has its command and its arguments as members, and no others.
pub proof fn law_envelope(command: Seq<char>, args: Json)
    ensures
        envelope(command, args) matches Json::Object(members) && {
            &&& members.dom() == set!["command"@, "args"@]
            &&& members["command"@] == Json::Text(command)
            &&& members["args"@] == args
        },
{
    reveal_strlit("command");
    reveal_strlit("args");
    assert("command"@.len() != "args"@.len());
    assert(envelope(command, args)->Object_0.dom() =~= set!["command"@, "args"@]);
}

/// A login gives the bot's name and the version of the protocol, and nothing
/// else.
pub proof fn law_login()
    ensures
        login_args() matches Json::Object(members) && {
            &&& members.dom() == set!["name"@, "version"@]
            &&& members["name"@] == Json::Text("Damoc_Damian"@)
            &&& members["version"@] == Json::Int(1)
        },
{
    reveal_strlit("name");
    reveal_strlit("version");
    assert("name"@.len() != "version"@.len());
    assert(login_args()->Object_0.dom() =~= set!["name"@, "version"@]);
}

/// Of all documents only an object whose member `fatal` is the truth value true
/// says that an error is fatal; its other members do not matter.
pub proof fn law_fatal(content: Json, members: Map<Seq<char>, Json>, name: Seq<char>, other: Json)
    ensures
        !(content is Object) ==> !says_fatal(content),
        says_fatal(Json::Object(members.insert("fatal"@, Json::Bool(true)))),
        other != Json::Bool(true) ==> !says_fatal(Json::Object(members.insert("fatal"@, other))),
        !says_fatal(Json::Object(members.remove("fatal"@))),
        name != "fatal"@ ==> says_fatal(Json::Object(members.insert(name, other))) == says_fatal(
            Json::Object(members),
        ),
{
}

} // verus!
