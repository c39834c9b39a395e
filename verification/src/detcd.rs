//! Drive the system of this machine from somewhere else.
//!
//! `detcd` is not a daemon: it speaks varlink on the connection it is handed,
//! answers one call, and exits.  What is here is what it answers: which calls it
//! refuses and with what, which of them reach `detc`, and how what a verb has to
//! say becomes the replies of the method that was called.
//!
//! Everything that can go wrong with the call itself is an error reply: the
//! caller asked and is owed an answer.

use vstd::prelude::*;

use crate::detc::{Commands, Verb};
use crate::manager;
use crate::manager::{commanded, method_found, method_name, method_streams, method_writes, Method};
use crate::record::{Record, Saying};
use crate::text;
use crate::value;
use crate::value::{Datum, Json};
use crate::varlink;
use crate::varlink::{Answer, Call, Reply};

verus! {

/// What there is to say when the connection ends before a call arrives.
pub const GONE: &'static str = "The caller went away without asking for anything";

/// A failure with nothing more to say about it.
pub open spec fn bare(error: Seq<char>) -> Answer {
    varlink::failure(error, Json::Object(Map::empty()))
}

/// The call failed, with the message that `detc` would have printed.
pub open spec fn failing(message: Seq<char>) -> Answer {
    varlink::failure(manager::FAILED@, varlink::one("message"@, Json::Text(message)))
}

/// A failure with nothing more to say about it.
fn bare_reply(error: &str) -> (r: Reply)
    ensures
        r@ == bare(error@),
{
    let entries: Vec<(String, Datum)> = Vec::new();
    assert(value::members(entries@) =~= Map::<Seq<char>, Json>::empty());
    Reply::failed(error, Datum::Object(entries))
}

/// The call failed, with the message that `detc` would have printed.
pub fn failed(message: &str) -> (r: Reply)
    ensures
        r@ == failing(message@),
{
    let mut entries: Vec<(String, Datum)> = Vec::new();
    value::put(&mut entries, "message".to_owned(), Datum::String(message.to_owned()));
    Reply::failed(manager::FAILED, Datum::Object(entries))
}

/// What becomes of a call before its parameters are read.
pub enum Admission {
    /// The call is answered, and that is all of it.
    Answered(Reply),
    /// The call is of a method of this service.
    Called(Method),
}

/// What becomes of a call before its parameters are read, as plain values.
pub enum Entrance {
    Answered(Answer),
    Called(Method),
}

impl View for Admission {
    type V = Entrance;

    open spec fn view(&self) -> Entrance {
        match self {
            Admission::Answered(reply) => Entrance::Answered(reply@),
            Admission::Called(method) => Entrance::Called(*method),
        }
    }
}

/// What becomes of a call that is not of the interface that describes a service.
pub open spec fn entering(call: Call) -> Entrance {
    match method_found(call.method@) {
        None => Entrance::Answered(varlink::unknown_method(call.method@)),
        Some(method) => if call.oneway {
            Entrance::Answered(varlink::bad_parameter("oneway"@))
        } else if call.upgrade {
            Entrance::Answered(varlink::bad_parameter("upgrade"@))
        } else if method_streams(method) && !call.more {
            Entrance::Answered(bare(manager::EXPECTED_MORE@))
        } else {
            Entrance::Called(method)
        },
    }
}

/// What becomes of a call before its parameters are read.
pub open spec fn entrance(
    call: Call,
    interfaces: Seq<(&str, &str)>,
    version: Seq<char>,
) -> Entrance {
    match varlink::service_answer(
        call.method@,
        varlink::held(call.parameters),
        interfaces,
        version,
    ) {
        Some(answer) => Entrance::Answered(answer),
        None => entering(call),
    }
}

/// What becomes of a call before its parameters are read.
///
/// A call that asks for no answer, or for the connection itself, is answered
/// rather than ignored, because a caller that asks for either and is answered as
/// if it had not is left waiting.
pub fn receive(call: &Call, interfaces: &[(&str, &str)], version: &str) -> (r: Admission)
    ensures
        r@ == entrance(*call, interfaces@, version@),
{
    if let Some(reply) = varlink::service(call, interfaces, version) {
        return Admission::Answered(reply);
    }
    let method = match manager::find(call.method.as_str()) {
        Some(method) => method,
        None => {
            return Admission::Answered(varlink::method_not_found(call.method.as_str()));
        },
    };
    if call.oneway {
        return Admission::Answered(varlink::invalid_parameter("oneway"));
    }
    if call.upgrade {
        return Admission::Answered(varlink::invalid_parameter("upgrade"));
    }
    if method.stream() && !call.more {
        return Admission::Answered(bare_reply(manager::EXPECTED_MORE));
    }
    Admission::Called(method)
}

/// Whether a call that a reply answers succeeded.
pub fn answered(reply: &Reply) -> (r: bool)
    ensures
        r == (reply@.error is None),
{
    match &reply.error {
        None => true,
        Some(_) => false,
    }
}

/// What a call of a method is: the subcommand it runs and whether it is a dry
/// run, or the answer that refuses it.
pub open spec fn permission(
    method: Method,
    command: Result<(Verb, bool), Seq<char>>,
    read_only: bool,
) -> Result<(Verb, bool), Answer> {
    match command {
        Err(e) => Err(failing(e)),
        Ok((verb, dry_run)) => if read_only && method_writes(method) && !dry_run {
            Err(bare(manager::READ_ONLY@))
        } else {
            Ok((verb, dry_run))
        },
    }
}

/// A permission, as plain values.
pub open spec fn permitted(r: Result<(Commands, bool), Reply>) -> Result<(Verb, bool), Answer> {
    match r {
        Ok((command, dry_run)) => Ok((command@, dry_run)),
        Err(reply) => Err(reply@),
    }
}

/// What a call of a method is.  A dry run of a method that writes writes nothing,
/// so a service that is read only allows it.
pub fn permit(method: Method, command: Result<(Commands, bool), String>, read_only: bool) -> (r:
    Result<(Commands, bool), Reply>)
    ensures
        permitted(r) == permission(method, commanded(command), read_only),
{
    match command {
        Err(e) => Err(failed(e.as_str())),
        Ok((command, dry_run)) => if read_only && method.writes() && !dry_run {
            Err(bare_reply(manager::READ_ONLY))
        } else {
            Ok((command, dry_run))
        },
    }
}

/// The replies of one method, as a verb speaks.
///
/// A method that streams sends one reply per record.  A method that answers once
/// has to hold what it is given until the run is over, because until then there
/// is no telling whether the reply it is building is the last one.
pub struct Sink {
    pub method: Method,
    pub single: Option<Record>,
}

/// A record, if there is one.
pub open spec fn said(record: Option<Record>) -> Option<Saying> {
    match record {
        Some(record) => Some(record@),
        None => None,
    }
}

/// What is held once one more thing was said, or nothing when it does not fit in
/// one reply.  A document printed in pieces is one document, and stays one.
pub open spec fn gathered(held: Option<Saying>, saying: Saying) -> Option<Saying> {
    match held {
        None => Some(saying),
        Some(Saying::Text(before)) => match saying {
            Saying::Text(t) => Some(Saying::Text(before + t)),
            _ => None,
        },
        Some(_) => None,
    }
}

/// What is held once everything was said, or nothing when it does not fit in one
/// reply.
pub open spec fn gathered_all(all: Seq<Saying>) -> Option<Option<Saying>>
    decreases all.len(),
{
    if all.len() == 0 {
        Some(None)
    } else {
        match gathered_all(all.drop_last()) {
            None => None,
            Some(held) => match gathered(held, all.last()) {
                None => None,
                Some(saying) => Some(Some(saying)),
            },
        }
    }
}

/// The last of the replies to a call that succeeded.
pub enum Closing {
    /// The end of a stream.
    End(Datum),
    /// The one answer of the method.
    Record(Record),
}

/// The last of the replies to a call that succeeded, as plain values.
pub enum Farewell {
    End(Json),
    Record(Saying),
}

impl View for Closing {
    type V = Farewell;

    open spec fn view(&self) -> Farewell {
        match self {
            Closing::End(parameters) => Farewell::End(parameters@),
            Closing::Record(record) => Farewell::Record(record@),
        }
    }
}

/// The last reply, or why there is none.
pub open spec fn closed(r: Result<Closing, String>) -> Result<Farewell, Seq<char>> {
    match r {
        Ok(closing) => Ok(closing@),
        Err(e) => Err(e@),
    }
}

/// The last reply of a method that holds what it holds.
pub open spec fn farewell(method: Method, held: Option<Saying>) -> Result<Farewell, Seq<char>> {
    if method_streams(method) {
        Ok(Farewell::End(varlink::one(manager::method_field(method), Json::Null)))
    } else {
        match held {
            Some(saying) => Ok(Farewell::Record(saying)),
            None => Err(method_name(method) + " answered nothing"@),
        }
    }
}

impl Sink {
    /// The replies of a method, before anything was said.
    pub fn new(method: Method) -> (r: Self)
        ensures
            r.method == method,
            said(r.single) is None,
    {
        Sink { method, single: None }
    }

    /// One more thing that the verb has to say: the record to send right away,
    /// with more behind it, or nothing when it is held for the end.  Where a second
    /// record does not fit, neither of the two is held any longer.
    pub fn emit(&mut self, record: Record) -> (r: Result<Option<Record>, String>)
        ensures
            final(self).method == old(self).method,
            method_streams(old(self).method) ==> final(self).single == old(self).single && r
                == Ok::<Option<Record>, String>(Some(record)),
            !method_streams(old(self).method) ==> match gathered(said(old(self).single), record@) {
                Some(saying) => said(final(self).single) == Some(saying) && r == Ok::<
                    Option<Record>,
                    String,
                >(None),
                None => {
                    &&& said(final(self).single) is None
                    &&& r matches Err(e) && e@ == method_name(old(self).method)
                        + " answers with one reply"@
                },
            },
    {
        if self.method.stream() {
            return Ok(Some(record));
        }
        let mut before: Option<Record> = None;
        std::mem::swap(&mut before, &mut self.single);
        match before {
            None => {
                self.single = Some(record);
                Ok(None)
            },
            Some(Record::Text(mut t)) => match record {
                Record::Text(more) => {
                    t.append(more.as_str());
                    self.single = Some(Record::Text(t));
                    Ok(None)
                },
                _ => Err(self.crowded()),
            },
            Some(_) => Err(self.crowded()),
        }
    }

    /// Why a second record does not fit.
    fn crowded(&self) -> (r: String)
        ensures
            r@ == method_name(self.method) + " answers with one reply"@,
    {
        let mut r = self.method.name().to_owned();
        r.append(" answers with one reply");
        r
    }

    /// The reply that ends the call.
    pub fn finish(self) -> (r: Result<Closing, String>)
        ensures
            closed(r) == farewell(self.method, said(self.single)),
    {
        if self.method.stream() {
            return Ok(Closing::End(manager::end(self.method)));
        }
        match self.single {
            Some(record) => Ok(Closing::Record(record)),
            None => {
                let mut r = self.method.name().to_owned();
                r.append(" answered nothing");
                Err(r)
            },
        }
    }
}

/// A read only service runs nothing that changes the system: what it lets through
/// is a method that writes nothing, or a dry run.
pub proof fn law_a_read_only_service_changes_nothing(
    method: Method,
    command: Result<(Verb, bool), Seq<char>>,
)
    ensures
        permission(method, command, true) matches Ok((_, dry_run)) ==> !method_writes(method)
            || dry_run,
{
}

/// A document printed in pieces is one reply, and holds the pieces in the order in
/// which they were printed.
pub proof fn law_a_document_in_pieces_is_one_reply(pieces: Seq<Seq<char>>)
    requires
        pieces.len() > 0,
    ensures
        gathered_all(Seq::new(pieces.len(), |i: int| Saying::Text(pieces[i]))) == Some(
            Some(Saying::Text(text::join(pieces, Seq::empty()))),
        ),
    decreases pieces.len(),
{
    let all = Seq::new(pieces.len(), |i: int| Saying::Text(pieces[i]));
    let fewer = Seq::new(pieces.drop_last().len(), |i: int| Saying::Text(pieces.drop_last()[i]));
    assert(all.drop_last() =~= fewer);
    if pieces.len() > 1 {
        law_a_document_in_pieces_is_one_reply(pieces.drop_last());
        reveal_with_fuel(gathered_all, 2);
        assert(text::join(pieces, Seq::empty()) =~= text::join(pieces.drop_last(), Seq::empty())
            + pieces.last());
    } else {
        assert(fewer.len() == 0);
        reveal_with_fuel(gathered_all, 2);
    }
}

/// A call is taken up when its method is known, when it waits for its answer,
/// and when it asks for more answers where there may be more; any other call
/// is answered with an error at once.
pub proof fn law_a_call_is_taken_up_or_refused(call: Call)
    ensures
        method_found(call.method@) is None ==> (entering(call) matches Entrance::Answered(a)
            && a.error == Some("org.varlink.service.MethodNotFound"@) && !a.continues),
        method_found(call.method@) is Some && (call.oneway || call.upgrade) ==> (entering(
            call,
        ) matches Entrance::Answered(a) && a.error == Some(
            "org.varlink.service.InvalidParameter"@,
        )),
        method_found(call.method@) is Some && !call.oneway && !call.upgrade && method_streams(
            method_found(call.method@)->0,
        ) && !call.more ==> (entering(call) matches Entrance::Answered(a) && a.error == Some(
            "org.detc.Manager.ExpectedMore"@,
        )),
        method_found(call.method@) is Some && !call.oneway && !call.upgrade && (!method_streams(
            method_found(call.method@)->0,
        ) || call.more) ==> entering(call) == Entrance::Called(method_found(call.method@)->0),
{
}

/// A command is let through unless the service is read-only and the command
/// would change the system; a trial changes nothing. What is let through is
/// the command as it was asked for.
pub proof fn law_a_command_is_let_through_unless_it_writes(
    method: Method,
    verb: Verb,
    dry_run: bool,
    e: Seq<char>,
)
    ensures
        permission(method, Ok((verb, dry_run)), false) == Ok::<(Verb, bool), Answer>((verb, dry_run)),
        permission(method, Ok((verb, true)), true) == Ok::<(Verb, bool), Answer>((verb, true)),
        !method_writes(method) ==> permission(method, Ok((verb, dry_run)), true) == Ok::<
            (Verb, bool),
            Answer,
        >((verb, dry_run)),
        method_writes(method) ==> (permission(method, Ok((verb, false)), true) matches Err(a)
            && a.error == Some("org.detc.Manager.ReadOnly"@)),
        permission(method, Err(e), false) matches Err(a) && a.error == Some(
            "org.detc.Manager.Failed"@,
        ) && a.parameters == Some(varlink::one("message"@, Json::Text(e))),
        permission(method, Err(e), true) is Err,
{
}

/// A method that answers once answers with what it said, texts behind each
/// other; anything more than that is no answer.
pub proof fn law_one_answer_is_one_record(all: Seq<Saying>, saying: Saying, a: Seq<char>, b: Seq<char>)
    ensures
        gathered(None, saying) == Some(saying),
        gathered(Some(Saying::Text(a)), Saying::Text(b)) == Some(Saying::Text(a + b)),
        !(saying is Text) ==> gathered(Some(Saying::Text(a)), saying) is None && gathered(
            Some(saying),
            Saying::Text(a),
        ) is None,
        gathered_all(Seq::empty()) == Some(None::<Saying>),
        gathered_all(seq![saying]) == Some(Some(saying)),
        gathered_all(all) is None ==> gathered_all(all.push(saying)) is None,
{
    assert(all.push(saying).drop_last() =~= all);
    assert(seq![saying].drop_last() =~= Seq::empty());
}

/// A method that streams ends with an answer that holds nothing under its
/// field, and any other with its one record, of which there has to be one.
pub proof fn law_a_stream_ends_with_nothing(method: Method, saying: Saying)
    ensures
        method_streams(method) ==> farewell(method, Some(saying)) == Ok::<Farewell, Seq<char>>(
            Farewell::End(varlink::one(manager::method_field(method), Json::Null)),
        ) && farewell(method, None) == farewell(method, Some(saying)),
        !method_streams(method) ==> farewell(method, Some(saying)) == Ok::<Farewell, Seq<char>>(
            Farewell::Record(saying),
        ) && farewell(method, None) is Err,
{
}

/// A call of the service itself is answered at once, and any other call is
/// taken up or refused by its method.
pub proof fn law_the_service_answers_before_the_manager(
    call: Call,
    interfaces: Seq<(&str, &str)>,
    version: Seq<char>,
)
    ensures
        varlink::method_of("org.varlink.service"@, call.method@) is None ==> entrance(
            call,
            interfaces,
            version,
        ) == entering(call),
        call.method@ == "org.varlink.service"@ + "."@ + "GetInfo"@ ==> (entrance(
            call,
            interfaces,
            version,
        ) matches Entrance::Answered(a) && a.error is None && a.parameters == Some(
            varlink::info(version, varlink::interface_names(interfaces)),
        )),
{
    varlink::law_the_service_answers_for_itself(
        call.method@,
        varlink::held(call.parameters),
        interfaces,
        version,
    );
}

} // verus!
