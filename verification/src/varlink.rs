//! The varlink wire protocol, and the interface that describes any service
//! that speaks it.
//!
//! A message is a JSON object followed by one NUL byte, in both directions.
//! That is the whole of the framing.

use vstd::prelude::*;

use crate::text;
use crate::value;
use crate::value::{Datum, Json};

verus! {

/// The interface that lets a caller ask a service what it speaks.
pub const SERVICE: &'static str = "org.varlink.service";

/// What the service calls itself.
pub const PRODUCT: &'static str = "detc";

/// A call, as it arrives on the socket.
pub struct Call {
    pub method: String,
    pub parameters: Option<Datum>,
    pub more: bool,
    pub oneway: bool,
    pub upgrade: bool,
}

/// One answer to a call.  A call is answered by one reply, or by a stream of
/// them where every reply but the last one continues.
pub struct Reply {
    pub parameters: Option<Datum>,
    pub continues: bool,
    pub error: Option<String>,
}

/// One answer to a call, as plain values.
pub struct Answer {
    pub parameters: Option<Json>,
    pub continues: bool,
    pub error: Option<Seq<char>>,
}

/// What an optional document holds.
pub open spec fn held(d: Option<Datum>) -> Option<Json> {
    match d {
        Some(d) => Some(d@),
        None => None,
    }
}

impl View for Reply {
    type V = Answer;

    open spec fn view(&self) -> Answer {
        Answer {
            parameters: held(self.parameters),
            continues: self.continues,
            error: text::text_of(self.error),
        }
    }
}

/// The last answer to a call.
pub open spec fn last_answer(parameters: Json) -> Answer {
    Answer { parameters: Some(parameters), continues: false, error: None }
}

/// A failure, which ends the call.
pub open spec fn failure(error: Seq<char>, parameters: Json) -> Answer {
    Answer { parameters: Some(parameters), continues: false, error: Some(error) }
}

/// An object with one member.
pub open spec fn one(name: Seq<char>, v: Json) -> Json {
    Json::Object(Map::<Seq<char>, Json>::empty().insert(name, v))
}

/// The method is not one that this service has.
pub open spec fn unknown_method(method: Seq<char>) -> Answer {
    failure("org.varlink.service.MethodNotFound"@, one("method"@, Json::Text(method)))
}

/// The parameters of the call are not the ones the method takes.
pub open spec fn bad_parameter(parameter: Seq<char>) -> Answer {
    failure("org.varlink.service.InvalidParameter"@, one("parameter"@, Json::Text(parameter)))
}

/// An object with one member.
fn single(name: &str, v: Datum) -> (r: Datum)
    ensures
        r@ == one(name@, v@),
{
    let mut entries: Vec<(String, Datum)> = Vec::new();
    value::put(&mut entries, name.to_owned(), v);
    Datum::Object(entries)
}

impl Reply {
    /// The last reply of a call.
    pub fn last(parameters: Datum) -> (r: Self)
        ensures
            r@ == last_answer(parameters@),
    {
        Reply { parameters: Some(parameters), continues: false, error: None }
    }

    /// A reply with more behind it.
    pub fn more(parameters: Datum) -> (r: Self)
        ensures
            r@ == (Answer { parameters: Some(parameters@), continues: true, error: None }),
    {
        Reply { parameters: Some(parameters), continues: true, error: None }
    }

    /// A failure, which ends the call whatever was sent before it.
    pub fn failed(error: &str, parameters: Datum) -> (r: Self)
        ensures
            r@ == failure(error@, parameters@),
    {
        Reply { parameters: Some(parameters), continues: false, error: Some(error.to_owned()) }
    }
}

/// The method is not one that this service has.
pub fn method_not_found(method: &str) -> (r: Reply)
    ensures
        r@ == unknown_method(method@),
{
    Reply::failed(
        "org.varlink.service.MethodNotFound",
        single("method", Datum::String(method.to_owned())),
    )
}

/// The parameters of the call are not the ones the method takes.
pub fn invalid_parameter(parameter: &str) -> (r: Reply)
    ensures
        r@ == bad_parameter(parameter@),
{
    Reply::failed(
        "org.varlink.service.InvalidParameter",
        single("parameter", Datum::String(parameter.to_owned())),
    )
}

/// A message as it goes over the wire.
pub fn frame(message: Vec<u8>) -> (r: Vec<u8>)
    ensures
        r@ == message@.push(0),
{
    let mut r = message;
    r.push(0);
    r
}

/// The message in what was read up to a NUL byte, or nothing when the other end
/// is done.
///
/// A message that is not terminated is an error and not the end of the
/// conversation, so that a connection cut in the middle of a call is told apart
/// from one closed between two of them.
pub fn message(buffer: Vec<u8>) -> (r: Result<Option<Vec<u8>>, String>)
    ensures
        match r {
            Ok(None) => buffer@.len() == 0,
            Ok(Some(m)) => buffer@.len() > 0 && buffer@.last() == 0 && m@ == buffer@.drop_last(),
            Err(e) => buffer@.len() > 0 && buffer@.last() != 0 && e@
                == "The varlink message was cut before it was terminated"@,
        },
{
    let mut rest = buffer;
    match rest.pop() {
        None => Ok(None),
        Some(b) => {
            if b == 0 {
                Ok(Some(rest))
            } else {
                Err("The varlink message was cut before it was terminated".to_owned())
            }
        },
    }
}

/// What is sent is what is received: the message in a frame is the one that was
/// put in it.
pub proof fn law_frame_is_read_back(message: Seq<u8>)
    ensures
        message.push(0u8).len() > 0,
        message.push(0u8).last() == 0,
        message.push(0u8).drop_last() == message,
{
    assert(message.push(0u8).drop_last() =~= message);
}

/// The name of a method below an interface.
pub open spec fn method_of(interface: Seq<char>, method: Seq<char>) -> Option<Seq<char>> {
    match text::without_prefix(method, interface) {
        None => None,
        Some(rest) => text::without_prefix(rest, "."@),
    }
}

/// The name of a method below an interface.
pub fn method_in(interface: &str, method: &str) -> (r: Option<String>)
    ensures
        text::text_of(r) == method_of(interface@, method@),
{
    match text::strip(method, interface) {
        None => None,
        Some(rest) => text::strip(rest.as_str(), "."),
    }
}

/// The texts of a list, as a document.
pub open spec fn texts_json(s: Seq<Seq<char>>) -> Seq<Json> {
    Seq::new(s.len(), |i: int| Json::Text(s[i]))
}

/// The names of interfaces, each given with its description.
pub open spec fn interface_names(interfaces: Seq<(&str, &str)>) -> Seq<Seq<char>> {
    Seq::new(interfaces.len(), |i: int| interfaces[i].0@)
}

/// What the service is, and what it speaks.
pub open spec fn info(version: Seq<char>, names: Seq<Seq<char>>) -> Json {
    Json::Object(
        Map::<Seq<char>, Json>::empty().insert("vendor"@, Json::Text("The detc project"@)).insert(
            "product"@,
            Json::Text(PRODUCT@),
        ).insert("version"@, Json::Text(version)).insert("url"@, Json::Text(""@)).insert(
            "interfaces"@,
            Json::Array(texts_json(names)),
        ),
    )
}

/// The description of the first interface that has a name, from `n` on.
pub open spec fn description_from(
    interfaces: Seq<(&str, &str)>,
    wanted: Seq<char>,
    n: nat,
) -> Option<Seq<char>>
    decreases interfaces.len() - n,
{
    if n >= interfaces.len() {
        None
    } else if interfaces[n as int].0@ == wanted {
        Some(interfaces[n as int].1@)
    } else {
        description_from(interfaces, wanted, n + 1)
    }
}

/// The interface that a call asks about.
pub open spec fn wanted_in(parameters: Option<Json>) -> Option<Seq<char>> {
    match parameters {
        Some(Json::Object(m)) => match value::member(m, "interface"@) {
            Some(Json::Text(t)) => Some(t),
            _ => None,
        },
        _ => None,
    }
}

/// The answer to a question about an interface.
pub open spec fn described(
    interfaces: Seq<(&str, &str)>,
    wanted: Option<Seq<char>>,
) -> Answer {
    match wanted {
        None => bad_parameter("interface"@),
        Some(wanted) => match description_from(interfaces, wanted, 0) {
            Some(description) => last_answer(one("description"@, Json::Text(description))),
            None => failure(
                "org.varlink.service.InterfaceNotFound"@,
                one("interface"@, Json::Text(wanted)),
            ),
        },
    }
}

/// The answer to a call of the interface that describes a service, or nothing
/// when the call is of another interface.
pub open spec fn service_answer(
    method: Seq<char>,
    parameters: Option<Json>,
    interfaces: Seq<(&str, &str)>,
    version: Seq<char>,
) -> Option<Answer> {
    match method_of(SERVICE@, method) {
        None => None,
        Some(name) => Some(
            if name == "GetInfo"@ {
                last_answer(info(version, interface_names(interfaces)))
            } else if name == "GetInterfaceDescription"@ {
                described(interfaces, wanted_in(parameters))
            } else {
                unknown_method(method)
            },
        ),
    }
}

/// The names of interfaces, as a document.
fn names_of(interfaces: &[(&str, &str)]) -> (r: Datum)
    ensures
        r@ == Json::Array(texts_json(interface_names(interfaces@))),
{
    let ghost want = texts_json(interface_names(interfaces@));
    let mut list: Vec<Datum> = Vec::new();
    let n: usize = interfaces.len();
    let mut i: usize = 0;
    while i < n
        invariant
            i <= n == interfaces@.len(),
            list@.len() == i,
            want == texts_json(interface_names(interfaces@)),
            forall|j: int| 0 <= j < i ==> (#[trigger] list@[j])@ == want[j],
        decreases n - i,
    {
        list.push(Datum::String(interfaces[i].0.to_owned()));
        i += 1;
    }
    proof {
        value::lemma_items(list@);
        assert(value::items(list@) =~= want);
    }
    Datum::Array(list)
}

/// The description of an interface.
fn description<'a>(interfaces: &'a [(&'a str, &'a str)], wanted: &str) -> (r: Option<&'a str>)
    ensures
        description_from(interfaces@, wanted@, 0) == (match r {
            Some(t) => Some(t@),
            None => None,
        }),
{
    let n: usize = interfaces.len();
    let mut i: usize = 0;
    while i < n
        invariant
            i <= n == interfaces@.len(),
            description_from(interfaces@, wanted@, 0) == description_from(
                interfaces@,
                wanted@,
                i as nat,
            ),
        decreases n - i,
    {
        if text::equal(interfaces[i].0, wanted) {
            return Some(interfaces[i].1);
        }
        i += 1;
    }
    None
}

/// Answer a call of the interface that a service implements so that a caller
/// can ask what it is and what else it speaks.
///
/// Every interface is given with its description, so that what is introspected
/// and what is served cannot be two different things.
pub fn service(call: &Call, interfaces: &[(&str, &str)], version: &str) -> (r: Option<Reply>)
    ensures
        service_answer(call.method@, held(call.parameters), interfaces@, version@) == (match r {
            Some(reply) => Some(reply@),
            None => None,
        }),
{
    let name = match method_in(SERVICE, call.method.as_str()) {
        Some(name) => name,
        None => {
            return None;
        },
    };
    if text::equal(name.as_str(), "GetInfo") {
        let mut entries: Vec<(String, Datum)> = Vec::new();
        value::put(
            &mut entries,
            "vendor".to_owned(),
            Datum::String("The detc project".to_owned()),
        );
        value::put(&mut entries, "product".to_owned(), Datum::String(PRODUCT.to_owned()));
        value::put(&mut entries, "version".to_owned(), Datum::String(version.to_owned()));
        value::put(&mut entries, "url".to_owned(), Datum::String("".to_owned()));
        value::put(&mut entries, "interfaces".to_owned(), names_of(interfaces));
        return Some(Reply::last(Datum::Object(entries)));
    }
    if text::equal(name.as_str(), "GetInterfaceDescription") {
        let wanted = match &call.parameters {
            Some(Datum::Object(entries)) => match value::get(entries, "interface") {
                Some(Datum::String(t)) => Some(t.clone()),
                _ => None,
            },
            _ => None,
        };
        return Some(
            match wanted {
                None => invalid_parameter("interface"),
                Some(wanted) => match description(interfaces, wanted.as_str()) {
                    Some(t) => Reply::last(single("description", Datum::String(t.to_owned()))),
                    None => Reply::failed(
                        "org.varlink.service.InterfaceNotFound",
                        single("interface", Datum::String(wanted)),
                    ),
                },
            },
        );
    }
    Some(method_not_found(call.method.as_str()))
}

/// A method belongs to the interface whose name and a dot come before it.
pub proof fn law_a_method_belongs_to_its_interface(interface: Seq<char>, name: Seq<char>)
    ensures
        method_of(interface, interface + "."@ + name) == Some(name),
        forall|method: Seq<char>|
            (#[trigger] method_of(interface, method)) matches Some(n) ==> method == interface + "."@ + n,
{
    reveal_strlit(".");
    let whole = interface + "."@ + name;
    assert(whole.subrange(0, interface.len() as int) =~= interface);
    assert(text::rest(whole, interface.len()) =~= "."@ + name);
    assert(("."@ + name).subrange(0, 1) =~= "."@);
    assert(text::rest("."@ + name, 1) =~= name);
    assert forall|method: Seq<char>| (#[trigger] method_of(interface, method)) is Some implies method
        == interface + "."@ + method_of(interface, method)->0 by {
        let n = method_of(interface, method)->0;
        let rest = text::rest(method, interface.len());
        assert(method =~= interface + rest) by {
            assert(method.subrange(0, interface.len() as int) == interface);
        }
        assert(rest =~= "."@ + n) by {
            assert(rest.subrange(0, 1) == "."@);
        }
        assert(interface + ("."@ + n) =~= interface + "."@ + n);
    }
}

/// An answer that ends a call says so, and carries either what was asked for
/// or an error.
pub proof fn law_an_error_ends_a_call(e: Seq<char>, j: Json, name: Seq<char>)
    ensures
        last_answer(j) == (Answer { parameters: Some(j), continues: false, error: None }),
        failure(e, j) == (Answer { parameters: Some(j), continues: false, error: Some(e) }),
        unknown_method(name).error == Some("org.varlink.service.MethodNotFound"@),
        unknown_method(name).parameters == Some(one("method"@, Json::Text(name))),
        bad_parameter(name).error == Some("org.varlink.service.InvalidParameter"@),
        bad_parameter(name).parameters == Some(one("parameter"@, Json::Text(name))),
        one(name, j) is Object,
        one(name, j)->Object_0.dom() == set![name],
        one(name, j)->Object_0[name] == j,
{
    assert(one(name, j)->Object_0.dom() =~= set![name]);
}

/// A service says who made it, what it is, which version, and the interfaces
/// that it has, in their order.
pub proof fn law_a_service_says_what_it_is(version: Seq<char>, names: Seq<Seq<char>>)
    ensures
        info(version, names) matches Json::Object(m) && {
            &&& m.dom() == set!["vendor"@, "product"@, "version"@, "url"@, "interfaces"@]
            &&& m["vendor"@] == Json::Text("The detc project"@)
            &&& m["product"@] == Json::Text("detc"@)
            &&& m["version"@] == Json::Text(version)
            &&& m["url"@] == Json::Text(""@)
            &&& m["interfaces"@] matches Json::Array(list) && list.len() == names.len() && (
            forall|i: int| 0 <= i < names.len() ==> #[trigger] list[i] == Json::Text(names[i]))
        },
{
    reveal_strlit("vendor");
    reveal_strlit("product");
    reveal_strlit("version");
    reveal_strlit("url");
    reveal_strlit("interfaces");
    assert("vendor"@[3] == 'd' && "version"@[3] == 's');
    assert("vendor"@[0] == 'v' && "version"@[0] == 'v' && "product"@[0] == 'p' && "url"@[0] == 'u'
        && "interfaces"@[0] == 'i');
    let m = info(version, names)->Object_0;
    assert(m.dom() =~= set!["vendor"@, "product"@, "version"@, "url"@, "interfaces"@]);
}

/// An interface is described by its own description, one that is not there is
/// an error, and so is a question that names none.
pub proof fn law_an_interface_is_described_by_its_own(
    interfaces: Seq<(&str, &str)>,
    wanted: Seq<char>,
    i: int,
)
    ensures
        described(interfaces, None).error == Some("org.varlink.service.InvalidParameter"@),
        0 <= i < interfaces.len() && interfaces[i].0@ == wanted && (forall|j: int|
            0 <= j < i ==> (#[trigger] interfaces[j]).0@ != wanted) ==> described(
            interfaces,
            Some(wanted),
        ) == last_answer(one("description"@, Json::Text(interfaces[i].1@))),
        (forall|j: int| 0 <= j < interfaces.len() ==> (#[trigger] interfaces[j]).0@ != wanted)
            ==> described(interfaces, Some(wanted)).error == Some(
            "org.varlink.service.InterfaceNotFound"@,
        ),
{
    lemma_described(interfaces, wanted, 0, i);
}

proof fn lemma_described(interfaces: Seq<(&str, &str)>, wanted: Seq<char>, n: nat, i: int)
    ensures
        n <= i < interfaces.len() && interfaces[i].0@ == wanted && (forall|j: int|
            n <= j < i ==> (#[trigger] interfaces[j]).0@ != wanted) ==> description_from(
            interfaces,
            wanted,
            n,
        ) == Some(interfaces[i].1@),
        (forall|j: int| n <= j < interfaces.len() ==> (#[trigger] interfaces[j]).0@ != wanted)
            ==> description_from(interfaces, wanted, n) is None,
    decreases interfaces.len() - n,
{
    if n < interfaces.len() {
        lemma_described(interfaces, wanted, n + 1, i);
    }
}

/// The service itself answers for its two methods, refuses any other of its
/// interface, and leaves the rest alone.
pub proof fn law_the_service_answers_for_itself(
    name: Seq<char>,
    parameters: Option<Json>,
    interfaces: Seq<(&str, &str)>,
    version: Seq<char>,
)
    ensures
        service_answer("org.varlink.service"@ + "."@ + "GetInfo"@, parameters, interfaces, version)
            == Some(last_answer(info(version, interface_names(interfaces)))),
        service_answer(
            "org.varlink.service"@ + "."@ + "GetInterfaceDescription"@,
            parameters,
            interfaces,
            version,
        ) == Some(described(interfaces, wanted_in(parameters))),
        name != "GetInfo"@ && name != "GetInterfaceDescription"@ ==> service_answer(
            "org.varlink.service"@ + "."@ + name,
            parameters,
            interfaces,
            version,
        ) == Some(unknown_method("org.varlink.service"@ + "."@ + name)),
        method_of("org.varlink.service"@, name) is None ==> service_answer(
            name,
            parameters,
            interfaces,
            version,
        ) is None,
{
    law_a_method_belongs_to_its_interface("org.varlink.service"@, "GetInfo"@);
    law_a_method_belongs_to_its_interface("org.varlink.service"@, "GetInterfaceDescription"@);
    law_a_method_belongs_to_its_interface("org.varlink.service"@, name);
    reveal_strlit("GetInfo");
    reveal_strlit("GetInterfaceDescription");
    assert("GetInfo"@.len() == 7 && "GetInterfaceDescription"@.len() == 23);
}

/// The interface that is asked about is the text under `interface`.
pub proof fn law_the_interface_is_named_by_a_text(m: Map<Seq<char>, Json>, t: Seq<char>)
    ensures
        m.dom().contains("interface"@) && m["interface"@] == Json::Text(t) ==> wanted_in(
            Some(Json::Object(m)),
        ) == Some(t),
        !m.dom().contains("interface"@) ==> wanted_in(Some(Json::Object(m))) is None,
        wanted_in(None) is None,
{
}

} // verus!
