//! The room's tool surface, stated once as data, and the reading of one call
//! against it.
//!
//! A host renders these specs into whatever its agents call. The descriptions
//! are contract text: the only place a seat is told that what it writes
//! outside a tool call reaches nobody, and that `complete_episode` is not one
//! more `post`.
use vstd::prelude::*;

verus! {

/// How many messages `read` returns when the seat does not say.
pub const READ_DEFAULT: usize = 20;

/// The most messages one `read` returns, however many it asked for.
pub const READ_MAX: usize = 100;

/// The bare tool names.
pub const POST: &'static str = "post";
/// `broadcast`.
pub const BROADCAST: &'static str = "broadcast";
/// `dm`.
pub const DM: &'static str = "dm";
/// `ask`.
pub const ASK: &'static str = "ask";
/// `ask_teammates`.
pub const ASK_TEAMMATES: &'static str = "ask_teammates";
/// `complete_episode`.
pub const COMPLETE_EPISODE: &'static str = "complete_episode";
/// `read`.
pub const READ: &'static str = "read";

/// The argument names.
pub const MESSAGE: &'static str = "message";
/// `to`.
pub const TO: &'static str = "to";
/// `limit`.
pub const LIMIT: &'static str = "limit";

pub const POST_DESCRIPTION: &'static str = "State one thing to the whole desk: a fact you hold, a finding, or your \
                      answer to a question a peer asked you. A person reads this in the chat, \
                      and so does the desk: lead with the point in plain words, keep it short, \
                      and refer to teammates by name. Nobody is assigned anything by it. If what \
                      you found is work that belongs to another seat, that is `broadcast`, not \
                      this. Text you write outside a tool call is your own thinking and reaches \
                      nobody.";

pub const POST_MESSAGE: &'static str = "The fact, plainly, for a person to read. Not a request, and not a handoff.";

pub const BROADCAST_DESCRIPTION: &'static str = "Send work or a finding to whichever teammates are semantically best placed \
                      to take it. The host routes this message with one TypeSafe Choice over the \
                      currently eligible team; it is not a broadcast-to-all fan-out. Call this \
                      when you hold work that belongs to another seat, whoever that turns out \
                      to be. One piece of work per call: two things for two seats are two calls. \
                      A person reads this in the chat, and so does the teammate who takes it: \
                      say plainly what needs doing and why, keep it short, and refer to \
                      teammates by name. Handing work off is a finding: unless you are waiting \
                      on a question you asked, it completes your part, and you need not call \
                      `complete_episode` after it.";

pub const BROADCAST_MESSAGE: &'static str = "The work, finding, or request, self-contained and in plain words: a person \
                 reads it, and so does the teammate who takes it up.";

pub const DM_DESCRIPTION: &'static str = "Say one thing to named peers instead of the whole desk. Use it to settle a \
                      disagreement without spending the room's attention; the room is told the \
                      exchange happened and not what it said. A person can still read it, so \
                      write it plainly. It still costs your one message for the turn.";

pub const DM_TO: &'static str = "Seat ids, not names, without the @.";

pub const ASK_DESCRIPTION: &'static str = "Open a private conversation with one named seat about something you \
                      need from it. It runs on its own, not while you wait: say what you need, \
                      then end your turn, and their answer reaches you on a later turn. You \
                      will not be able to finish until every question you asked has been \
                      answered, so nothing you asked for can be lost. Ask everyone you need in \
                      one turn; each ask is its own conversation, and they cannot read each \
                      other. When the answer depends on two seats agreeing, put them in one \
                      room with `ask_teammates` instead. If an answer raises another question, \
                      ask again. It is a question, not a handoff — work that belongs to \
                      another seat is `broadcast`. The seat you ask keeps whatever it was \
                      already doing. A person can read the question, so write it plainly.";

pub const ASK_TO: &'static str = "The seat to ask, by id rather than name, without the @.";

pub const ASK_MESSAGE: &'static str = "What you need from them, self-contained and in plain words: the question and why it matters to your work.";

pub const ASK_TEAMMATES_DESCRIPTION: &'static str = "Put one question to several seats at once, in a conversation they are \
                      all in together. Use it when the answer depends on them agreeing: they \
                      read each other's answers and can settle the disagreement between \
                      themselves, which separate questions cannot do — you would get two \
                      answers written in ignorance of each other and be the only one who \
                      noticed they conflict. It runs on its own, not while you wait, and it \
                      concludes once every seat you named has answered; you cannot finish \
                      until it does. Name only the seats whose agreement you need — every \
                      extra seat is another turn the room waits for. For something only one \
                      seat can settle, use `ask`.";

pub const ASK_TEAMMATES_TO: &'static str = "A list of two or more seat ids, by id rather than name, without the @. Only an id listed here is a seat; there is no name for the group.";

pub const ASK_TEAMMATES_MESSAGE: &'static str = "What you need from them, self-contained and in plain words: the question, why it matters to your work, and what you need them to agree on.";

pub const COMPLETE_EPISODE_DESCRIPTION: &'static str = "Conclude your part with one message, and that message is your finding: \
                      what you established, and why nothing is left open on your side. This is \
                      how a fact reaches the desk. A person reads this in the chat, and so does \
                      the desk: lead with the result in plain words, keep it short, include \
                      only what the reader needs to act on, and refer to teammates by name. Call \
                      it when you have no open step -- or, when a peer asked you something, as \
                      your answer. The episode completes after every assigned seat has called \
                      it; a later routed broadcast may assign new work and reopen a seat.";

pub const COMPLETE_EPISODE_MESSAGE: &'static str = "Your finding, complete in itself and written for a person: the result first, \
                 in plain words, then only what the reader needs to act on.";

pub const READ_DESCRIPTION: &'static str = "Read the desk's recent messages. You are handed a bounded window at the \
                      top of your turn; call this when you need more of it than you were given.";

pub const READ_LIMIT: &'static str = "How many recent messages to return. Default 20, max 100.";

/// The tool names are seven different names.
pub proof fn lemma_names_distinct()
    ensures
        POST@ != BROADCAST@ && POST@ != DM@ && POST@ != ASK@ && POST@ != ASK_TEAMMATES@
            && POST@ != COMPLETE_EPISODE@ && POST@ != READ@,
        BROADCAST@ != DM@ && BROADCAST@ != ASK@ && BROADCAST@ != ASK_TEAMMATES@
            && BROADCAST@ != COMPLETE_EPISODE@ && BROADCAST@ != READ@,
        DM@ != ASK@ && DM@ != ASK_TEAMMATES@ && DM@ != COMPLETE_EPISODE@ && DM@ != READ@,
        ASK@ != ASK_TEAMMATES@ && ASK@ != COMPLETE_EPISODE@ && ASK@ != READ@,
        ASK_TEAMMATES@ != COMPLETE_EPISODE@ && ASK_TEAMMATES@ != READ@,
        COMPLETE_EPISODE@ != READ@,
{
    reveal_strlit("post");
    reveal_strlit("broadcast");
    reveal_strlit("dm");
    reveal_strlit("ask");
    reveal_strlit("ask_teammates");
    reveal_strlit("complete_episode");
    reveal_strlit("read");
    assert(POST@.len() == 4 && BROADCAST@.len() == 9 && DM@.len() == 2 && ASK@.len() == 3);
    assert(ASK_TEAMMATES@.len() == 13 && COMPLETE_EPISODE@.len() == 16 && READ@.len() == 4);
    assert(POST@[0] != READ@[0]);
}

/// What shape an argument's value takes.
#[derive(Clone, Copy, Debug, Eq, PartialEq)]
pub enum ParameterKind {
    /// One string.
    Text,
    /// A list of strings.
    TextList,
    /// A whole number, with the default a call without it gets and the
    /// bounds it is clamped to.
    Count {
        /// The value when absent.
        default: u64,
        /// The least value.
        min: u64,
        /// The greatest value.
        max: u64,
    },
}

/// One argument a tool takes.
#[derive(Clone, Copy, Debug, Eq, PartialEq)]
pub struct ToolParameter {
    /// The argument name, as the seat writes it.
    pub name: &'static str,
    /// What the seat should put in it, or `None` where the tool's own
    /// description already says.
    pub description: Option<&'static str>,
    /// What shape the value takes.
    pub kind: ParameterKind,
    /// Whether a call without it is refused.
    pub required: bool,
}

/// One tool a seat may call.
#[derive(Debug, Eq, PartialEq)]
pub struct ToolSpec {
    /// The bare tool name, before any host namespacing.
    pub name: &'static str,
    /// What the tool does, written for the seat that will call it.
    pub description: &'static str,
    /// The arguments it takes, in the order they should be presented.
    pub parameters: Vec<ToolParameter>,
}

impl Clone for ToolSpec {
    fn clone(&self) -> (r: Self)
        ensures
            r.name == self.name,
            r.description == self.description,
            r.parameters@ == self.parameters@,
    {
        let mut parameters: Vec<ToolParameter> = Vec::new();
        let mut i: usize = 0;
        while i < self.parameters.len()
            invariant
                i <= self.parameters@.len(),
                parameters@ == self.parameters@.take(i as int),
            decreases self.parameters@.len() - i,
        {
            parameters.push(self.parameters[i]);
            assert(parameters@ =~= self.parameters@.take(i + 1));
            i = i + 1;
        }
        assert(self.parameters@.take(self.parameters@.len() as int) =~= self.parameters@);
        ToolSpec { name: self.name, description: self.description, parameters }
    }
}

/// A required argument.
pub open spec fn required(name: &'static str, description: Option<&'static str>, kind: ParameterKind) -> ToolParameter {
    ToolParameter { name, description, kind, required: true }
}

/// The shape of `read`'s one argument: the clamp the room applies.
pub open spec fn read_limit_kind() -> ParameterKind {
    ParameterKind::Count { default: 20, min: 1, max: 100 }
}

/// Whether `spec` is the tool `name`, described by `description`, taking
/// `parameters`.
pub open spec fn is_tool(spec: ToolSpec, name: &'static str, description: &'static str, parameters: Seq<ToolParameter>) -> bool {
    &&& spec.name == name
    &&& spec.description == description
    &&& spec.parameters@ == parameters
}

/// The vocabulary's names, in the order a seat should meet them: `post`
/// first because it is the one a seat must call, `read` last because it
/// should rarely need it.
pub open spec fn vocabulary_names() -> Seq<&'static str> {
    seq![POST, BROADCAST, DM, ASK, ASK_TEAMMATES, COMPLETE_EPISODE, READ]
}

/// Whether `spec` is the vocabulary's own entry for the tool it names.
pub open spec fn describes(spec: ToolSpec) -> bool {
    if spec.name == POST {
        is_tool(spec, POST, POST_DESCRIPTION,
            seq![required(MESSAGE, Some(POST_MESSAGE), ParameterKind::Text)])
    } else if spec.name == BROADCAST {
        is_tool(spec, BROADCAST, BROADCAST_DESCRIPTION,
            seq![required(MESSAGE, Some(BROADCAST_MESSAGE), ParameterKind::Text)])
    } else if spec.name == DM {
        is_tool(spec, DM, DM_DESCRIPTION,
            seq![required(TO, Some(DM_TO), ParameterKind::TextList), required(MESSAGE, None, ParameterKind::Text)])
    } else if spec.name == ASK {
        is_tool(spec, ASK, ASK_DESCRIPTION,
            seq![required(TO, Some(ASK_TO), ParameterKind::Text), required(MESSAGE, Some(ASK_MESSAGE), ParameterKind::Text)])
    } else if spec.name == ASK_TEAMMATES {
        is_tool(spec, ASK_TEAMMATES, ASK_TEAMMATES_DESCRIPTION,
            seq![required(TO, Some(ASK_TEAMMATES_TO), ParameterKind::TextList), required(MESSAGE, Some(ASK_TEAMMATES_MESSAGE), ParameterKind::Text)])
    } else if spec.name == COMPLETE_EPISODE {
        is_tool(spec, COMPLETE_EPISODE, COMPLETE_EPISODE_DESCRIPTION,
            seq![required(MESSAGE, Some(COMPLETE_EPISODE_MESSAGE), ParameterKind::Text)])
    } else if spec.name == READ {
        is_tool(spec, READ, READ_DESCRIPTION,
            seq![ToolParameter { name: LIMIT, description: Some(READ_LIMIT), kind: read_limit_kind(), required: false }])
    } else {
        false
    }
}

/// The names of `specs`, in order.
pub open spec fn names_of(specs: Seq<ToolSpec>) -> Seq<&'static str> {
    specs.map_values(|spec: ToolSpec| spec.name)
}

/// The whole vocabulary, each tool as the room describes it.
pub open spec fn is_vocabulary(specs: Seq<ToolSpec>) -> bool {
    &&& names_of(specs) == vocabulary_names()
    &&& forall|i: int| 0 <= i < specs.len() ==> describes(#[trigger] specs[i])
}

fn text_parameter(name: &'static str, description: Option<&'static str>, kind: ParameterKind) -> (p: ToolParameter)
    ensures
        p == required(name, description, kind),
{
    ToolParameter { name, description, kind, required: true }
}

fn tool(name: &'static str, description: &'static str, parameters: Vec<ToolParameter>) -> (spec: ToolSpec)
    ensures
        spec == (ToolSpec { name, description, parameters }),
{
    ToolSpec { name, description, parameters }
}

/// Every tool the room serves, in the order a seat should meet them.
pub fn tool_specs() -> (specs: Vec<ToolSpec>)
    ensures
        is_vocabulary(specs@),
{
    let mut specs: Vec<ToolSpec> = Vec::new();
    let mut p = Vec::new();
    p.push(text_parameter(MESSAGE, Some(POST_MESSAGE), ParameterKind::Text));
    specs.push(tool(POST, POST_DESCRIPTION, p));
    let mut p = Vec::new();
    p.push(text_parameter(MESSAGE, Some(BROADCAST_MESSAGE), ParameterKind::Text));
    specs.push(tool(BROADCAST, BROADCAST_DESCRIPTION, p));
    let mut p = Vec::new();
    p.push(text_parameter(TO, Some(DM_TO), ParameterKind::TextList));
    p.push(text_parameter(MESSAGE, None, ParameterKind::Text));
    specs.push(tool(DM, DM_DESCRIPTION, p));
    let mut p = Vec::new();
    p.push(text_parameter(TO, Some(ASK_TO), ParameterKind::Text));
    p.push(text_parameter(MESSAGE, Some(ASK_MESSAGE), ParameterKind::Text));
    specs.push(tool(ASK, ASK_DESCRIPTION, p));
    let mut p = Vec::new();
    p.push(text_parameter(TO, Some(ASK_TEAMMATES_TO), ParameterKind::TextList));
    p.push(text_parameter(MESSAGE, Some(ASK_TEAMMATES_MESSAGE), ParameterKind::Text));
    specs.push(tool(ASK_TEAMMATES, ASK_TEAMMATES_DESCRIPTION, p));
    let mut p = Vec::new();
    p.push(text_parameter(MESSAGE, Some(COMPLETE_EPISODE_MESSAGE), ParameterKind::Text));
    specs.push(tool(COMPLETE_EPISODE, COMPLETE_EPISODE_DESCRIPTION, p));
    let mut p = Vec::new();
    p.push(ToolParameter {
        name: LIMIT,
        description: Some(READ_LIMIT),
        kind: ParameterKind::Count { default: 20, min: 1, max: 100 },
        required: false,
    });
    specs.push(tool(READ, READ_DESCRIPTION, p));
    assert(names_of(specs@) =~= vocabulary_names());
    assert(specs@[0].parameters@ =~= seq![required(MESSAGE, Some(POST_MESSAGE), ParameterKind::Text)]);
    assert(specs@[1].parameters@ =~= seq![required(MESSAGE, Some(BROADCAST_MESSAGE), ParameterKind::Text)]);
    assert(specs@[2].parameters@ =~= seq![required(TO, Some(DM_TO), ParameterKind::TextList), required(MESSAGE, None, ParameterKind::Text)]);
    assert(specs@[3].parameters@ =~= seq![required(TO, Some(ASK_TO), ParameterKind::Text), required(MESSAGE, Some(ASK_MESSAGE), ParameterKind::Text)]);
    assert(specs@[4].parameters@ =~= seq![required(TO, Some(ASK_TEAMMATES_TO), ParameterKind::TextList), required(MESSAGE, Some(ASK_TEAMMATES_MESSAGE), ParameterKind::Text)]);
    assert(specs@[5].parameters@ =~= seq![required(MESSAGE, Some(COMPLETE_EPISODE_MESSAGE), ParameterKind::Text)]);
    assert(specs@[6].parameters@ =~= seq![ToolParameter { name: LIMIT, description: Some(READ_LIMIT), kind: read_limit_kind(), required: false }]);
    specs
}


/// What a seat said, once its call is read.
#[derive(Clone, Debug, Eq, PartialEq)]
pub enum Utterance {
    /// One thing to the whole desk.
    Post {
        /// What it says.
        message: String,
    },
    /// Work for whichever teammate routing places it with.
    Broadcast {
        /// The work.
        message: String,
    },
    /// One thing to named peers.
    Dm {
        /// The peers, by id.
        to: Vec<String>,
        /// What it says.
        message: String,
    },
    /// A question opening a conversation with the seats named.
    Ask {
        /// The seats asked, by id: one for `ask`, two or more for
        /// `ask_teammates`.
        to: Vec<String>,
        /// The question.
        message: String,
    },
    /// The seat's part concluded, with its finding.
    CompleteEpisode {
        /// The finding.
        message: String,
    },
}

/// The text an utterance carries.
pub open spec fn message_of(u: Utterance) -> String {
    match u {
        Utterance::Post { message } => message,
        Utterance::Broadcast { message } => message,
        Utterance::Dm { message, .. } => message,
        Utterance::Ask { message, .. } => message,
        Utterance::CompleteEpisode { message } => message,
    }
}

/// An utterance as plain values: its kind, the ids it names, what it says.
pub open spec fn said(u: Utterance) -> (int, Seq<Seq<char>>, Seq<char>) {
    match u {
        Utterance::Post { message } => (0, Seq::empty(), message@),
        Utterance::Broadcast { message } => (1, Seq::empty(), message@),
        Utterance::Dm { to, message } => (2, crate::text::views(to@), message@),
        Utterance::Ask { to, message } => (3, crate::text::views(to@), message@),
        Utterance::CompleteEpisode { message } => (4, Seq::empty(), message@),
    }
}

/// Whether two lists hold the same texts in the same order.
pub fn same_list(a: &Vec<String>, b: &Vec<String>) -> (r: bool)
    ensures
        r == (crate::text::views(a@) == crate::text::views(b@)),
{
    if a.len() != b.len() {
        assert(crate::text::views(a@).len() != crate::text::views(b@).len());
        return false;
    }
    let mut i: usize = 0;
    while i < a.len()
        invariant
            a@.len() == b@.len(),
            i <= a@.len(),
            forall|j: int| 0 <= j < i ==> (#[trigger] a@[j])@ == b@[j]@,
        decreases a@.len() - i,
    {
        if !crate::text::same(a[i].as_str(), b[i].as_str()) {
            assert(crate::text::views(a@)[i as int] != crate::text::views(b@)[i as int]);
            return false;
        }
        i = i + 1;
    }
    assert(crate::text::views(a@) =~= crate::text::views(b@));
    true
}

impl Utterance {
    /// The text it carries, whatever kind it is.
    /// A copy, saying the same.
    pub fn copy(&self) -> (r: Utterance)
        ensures
            said(r) == said(*self),
    {
        match self {
            Utterance::Post { message } => Utterance::Post { message: message.clone() },
            Utterance::Broadcast { message } => Utterance::Broadcast { message: message.clone() },
            Utterance::Dm { to, message } => Utterance::Dm { to: copy_all(to), message: message.clone() },
            Utterance::Ask { to, message } => Utterance::Ask { to: copy_all(to), message: message.clone() },
            Utterance::CompleteEpisode { message } => Utterance::CompleteEpisode { message: message.clone() },
        }
    }

    /// Whether `other` says the same, to the same ids, in the same kind.
    pub fn same_as(&self, other: &Utterance) -> (r: bool)
        ensures
            r == (said(*self) == said(*other)),
    {
        match (self, other) {
            (Utterance::Post { message: a }, Utterance::Post { message: b }) => crate::text::same(a.as_str(), b.as_str()),
            (Utterance::Broadcast { message: a }, Utterance::Broadcast { message: b }) => crate::text::same(a.as_str(), b.as_str()),
            (Utterance::Dm { to: t, message: a }, Utterance::Dm { to: u, message: b }) => same_list(t, u) && crate::text::same(a.as_str(), b.as_str()),
            (Utterance::Ask { to: t, message: a }, Utterance::Ask { to: u, message: b }) => same_list(t, u) && crate::text::same(a.as_str(), b.as_str()),
            (Utterance::CompleteEpisode { message: a }, Utterance::CompleteEpisode { message: b }) => crate::text::same(a.as_str(), b.as_str()),
            _ => false,
        }
    }

    pub fn message(&self) -> (m: &str)
        ensures
            m@ == message_of(*self)@,
    {
        match self {
            Utterance::Post { message } => message.as_str(),
            Utterance::Broadcast { message } => message.as_str(),
            Utterance::Dm { message, .. } => message.as_str(),
            Utterance::Ask { message, .. } => message.as_str(),
            Utterance::CompleteEpisode { message } => message.as_str(),
        }
    }
}

/// One call, read.
#[derive(Clone, Debug, Eq, PartialEq)]
pub enum ToolCall {
    /// Read the newest rows of the window the host handed over.
    Read {
        /// How many, already clamped.
        limit: usize,
    },
    /// Say something.
    Speak(Utterance),
}

/// The arguments a call carried, beside the thread it names.
#[derive(Clone, Debug, Eq, PartialEq)]
pub struct CallArguments {
    /// `message`, if given.
    pub message: Option<String>,
    /// `to`: one id given as a string is a list of one.
    pub to: Vec<String>,
    /// `limit`, if given.
    pub limit: Option<u64>,
}

/// Why a call was refused, in the words the seat reads.
#[derive(Clone, Debug, Eq, PartialEq)]
pub enum UtteranceRejection {
    /// No tool of that name is served.
    UnknownTool {
        /// The name called.
        name: String,
    },
    /// A required argument was not given.
    MissingArgument {
        /// The argument.
        name: &'static str,
    },
    /// `ask` names more than one seat.
    OneRecipient,
    /// `ask_teammates` names fewer than two seats.
    TooFewRecipients,
    /// The seats asked include the caller.
    SelfRecipient,
    /// A seat asked is not served here.
    UnknownRecipient {
        /// The id named.
        id: String,
    },
}

/// The sentence a rejection is given in.
pub open spec fn rejection_text(r: UtteranceRejection) -> Seq<char> {
    match r {
        UtteranceRejection::UnknownTool { name } => "unknown tool "@ + name@,
        UtteranceRejection::MissingArgument { name } => "missing argument `"@ + name@ + "`"@,
        UtteranceRejection::OneRecipient => ONE_RECIPIENT@,
        UtteranceRejection::TooFewRecipients => TOO_FEW_RECIPIENTS@,
        UtteranceRejection::SelfRecipient => SELF_RECIPIENT@,
        UtteranceRejection::UnknownRecipient { id } => "unknown recipient @"@ + id@,
    }
}

/// The refusal of an `ask` that names several seats.
pub const ONE_RECIPIENT: &'static str =
    "`ask` takes one seat; to put one question to several in one conversation, use `ask_teammates`";

/// The refusal of an `ask_teammates` that names fewer than two.
pub const TOO_FEW_RECIPIENTS: &'static str =
    "`ask_teammates` takes two or more seats; for one, use `ask`";

/// The refusal of a question that names its own asker.
pub const SELF_RECIPIENT: &'static str = "the question names you: a seat cannot ask itself";

impl UtteranceRejection {
    /// The sentence the seat reads.
    pub fn reason(&self) -> (text: String)
        ensures
            text@ == rejection_text(*self),
    {
        match self {
            UtteranceRejection::UnknownTool { name } => {
                let mut text = "unknown tool ".to_owned();
                text.append(name.as_str());
                text
            },
            UtteranceRejection::MissingArgument { name } => {
                let mut text = "missing argument `".to_owned();
                text.append(name);
                text.append("`");
                text
            },
            UtteranceRejection::OneRecipient => ONE_RECIPIENT.to_owned(),
            UtteranceRejection::TooFewRecipients => TOO_FEW_RECIPIENTS.to_owned(),
            UtteranceRejection::SelfRecipient => SELF_RECIPIENT.to_owned(),
            UtteranceRejection::UnknownRecipient { id } => {
                let mut text = "unknown recipient @".to_owned();
                text.append(id.as_str());
                text
            },
        }
    }
}

/// The limit a `read` is served: the default when absent, clamped to
/// `1..=READ_MAX`.
pub open spec fn clamped_limit(limit: Option<u64>) -> int {
    match limit {
        None => READ_DEFAULT as int,
        Some(n) => if n < 1 {
            1
        } else if n > READ_MAX {
            READ_MAX as int
        } else {
            n as int
        },
    }
}

/// A read is served the limit it asks for from 1 to 100; a larger one is
/// served 100, a zero is served 1, and a read that names no limit is served
/// 20.
pub proof fn law_read_limit(n: u64)
    ensures
        1 <= n <= 100 ==> clamped_limit(Some(n)) == n,
        n > 100 ==> clamped_limit(Some(n)) == 100,
        n == 0 ==> clamped_limit(Some(n)) == 1,
        clamped_limit(None) == 20,
        1 <= clamped_limit(Some(n)) <= 100,
{
}

/// A call to `read` is read as a read of exactly the limit it names, when
/// that limit is from 1 to 100.
pub proof fn law_read_is_served_its_limit(args: CallArguments, r: Result<ToolCall, UtteranceRejection>, n: u64)
    requires
        interprets(READ@, args, r),
        args.limit == Some(n),
        1 <= n <= 100,
    ensures
        r matches Ok(ToolCall::Read { limit }) && limit == n,
{
    lemma_names_distinct();
    law_read_limit(n);
}

/// Whether `u` is the utterance of the tool `name` carrying `to` and `message`.
pub open spec fn speaks(u: Utterance, name: Seq<char>, to: Seq<String>, message: Seq<char>) -> bool {
    if name == POST@ {
        u matches Utterance::Post { message: m } && m@ == message
    } else if name == BROADCAST@ {
        u matches Utterance::Broadcast { message: m } && m@ == message
    } else if name == COMPLETE_EPISODE@ {
        u matches Utterance::CompleteEpisode { message: m } && m@ == message
    } else if name == DM@ {
        u matches Utterance::Dm { to: t, message: m } && m@ == message && t@ == to
    } else {
        u matches Utterance::Ask { to: t, message: m } && m@ == message && t@ == to
    }
}

/// Whether `name` is a tool that says something.
pub open spec fn is_speech(name: Seq<char>) -> bool {
    name == POST@ || name == BROADCAST@ || name == COMPLETE_EPISODE@ || name == DM@ || name == ASK@
        || name == ASK_TEAMMATES@
}

/// Why a call to `name` with `args` is refused when it is read, if it is.
///
/// The message tools need a `message`; `dm` needs at least one recipient,
/// `ask` exactly one, `ask_teammates` two or more, each checked before the
/// message; `read` takes any limit; any other name is unknown.
pub open spec fn refusal_of(name: Seq<char>, args: CallArguments) -> Option<Seq<char>> {
    if is_speech(name) {
        if (name == DM@ || name == ASK@ || name == ASK_TEAMMATES@) && args.to.len() == 0 {
            Some(rejection_text(UtteranceRejection::MissingArgument { name: TO }))
        } else if name == ASK@ && args.to.len() > 1 {
            Some(ONE_RECIPIENT@)
        } else if name == ASK_TEAMMATES@ && args.to.len() < 2 {
            Some(TOO_FEW_RECIPIENTS@)
        } else if args.message is None {
            Some(rejection_text(UtteranceRejection::MissingArgument { name: MESSAGE }))
        } else {
            None
        }
    } else if name == READ@ {
        None
    } else {
        Some("unknown tool "@ + name)
    }
}

/// What reading a call to `name` with `args` comes to: its refusal, or the
/// call it is, `read`'s limit clamped.
pub open spec fn interprets(name: Seq<char>, args: CallArguments, r: Result<ToolCall, UtteranceRejection>) -> bool {
    match refusal_of(name, args) {
        Some(text) => r matches Err(e) && rejection_text(e) == text,
        None => if name == READ@ {
            r matches Ok(ToolCall::Read { limit }) && limit == clamped_limit(args.limit)
        } else {
            r matches Ok(ToolCall::Speak(u)) && speaks(u, name, args.to@, args.message->0@)
        },
    }
}

/// A copy of each string, in order.
pub fn copy_all(items: &Vec<String>) -> (r: Vec<String>)
    ensures
        r@ == items@,
{
    let mut r: Vec<String> = Vec::new();
    let mut i: usize = 0;
    while i < items.len()
        invariant
            i <= items@.len(),
            r@ == items@.take(i as int),
        decreases items@.len() - i,
    {
        r.push(items[i].clone());
        assert(r@ =~= items@.take(i + 1));
        i = i + 1;
    }
    assert(items@.take(items@.len() as int) =~= items@);
    r
}

/// Read one call to the tool `name`.
///
/// # Errors
///
/// The rejection, for a name outside the vocabulary or a call without what
/// its tool requires.
pub fn interpret(name: &str, args: &CallArguments) -> (r: Result<ToolCall, UtteranceRejection>)
    ensures
        interprets(name@, *args, r),
        name@ == READ@ ==> (r matches Ok(ToolCall::Read { limit }) && 1 <= limit <= 100
            && (forall|n: u64| args.limit == Some(n) && 1 <= n <= 100 ==> limit == n)
            && (args.limit is None ==> limit == 20)),
{
    proof {
        lemma_names_distinct();
        if args.limit is Some {
            law_read_limit(args.limit->0);
        } else {
            law_read_limit(0);
        }
    }
    proof {
        lemma_names_distinct();
    }
    let is_post = crate::text::same(name, POST);
    let is_broadcast = crate::text::same(name, BROADCAST);
    let is_complete = crate::text::same(name, COMPLETE_EPISODE);
    let is_dm = crate::text::same(name, DM);
    let is_ask = crate::text::same(name, ASK);
    let is_group = crate::text::same(name, ASK_TEAMMATES);
    if is_post || is_broadcast || is_complete || is_dm || is_ask || is_group {
        if (is_dm || is_ask || is_group) && args.to.len() == 0 {
            return Err(UtteranceRejection::MissingArgument { name: TO });
        }
        if is_ask && args.to.len() > 1 {
            return Err(UtteranceRejection::OneRecipient);
        }
        if is_group && args.to.len() < 2 {
            return Err(UtteranceRejection::TooFewRecipients);
        }
        let message = match &args.message {
            None => { return Err(UtteranceRejection::MissingArgument { name: MESSAGE }); },
            Some(m) => m.clone(),
        };
        assert(message@ == args.message->0@);
        let utterance = if is_post {
            Utterance::Post { message }
        } else if is_broadcast {
            Utterance::Broadcast { message }
        } else if is_complete {
            Utterance::CompleteEpisode { message }
        } else if is_dm {
            Utterance::Dm { to: copy_all(&args.to), message }
        } else {
            Utterance::Ask { to: copy_all(&args.to), message }
        };
        return Ok(ToolCall::Speak(utterance));
    }
    if crate::text::same(name, READ) {
        let limit: usize = match args.limit {
            None => READ_DEFAULT,
            Some(n) => if n < 1 {
                1
            } else if n > 100 {
                READ_MAX
            } else {
                n as usize
            },
        };
        return Ok(ToolCall::Read { limit });
    }
    Err(UtteranceRejection::UnknownTool { name: name.to_owned() })
}

} // verus!
