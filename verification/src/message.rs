use vstd::prelude::*;

verus! {

/// Ghost mirror of `MessageKind`, with string payloads as character sequences.
pub enum MessageKindV {
    Required,
    StartWith(Seq<char>),
    Email,
    Fallback(Seq<char>),
}

/// Ghost mirror of `Message`: the kind plus the rendered text.
pub struct MessageV {
    pub kind: MessageKindV,
    pub content: Seq<char>,
}

/// What sort of failure a built-in rule reports; `Fallback` carries
/// free-form text chosen by the caller.
#[derive(Debug, Clone, PartialEq, Eq)]
pub enum MessageKind {
    Required,
    StartWith(String),
    Email,
    Fallback(String),
}

impl View for MessageKind {
    type V = MessageKindV;

    open spec fn view(&self) -> MessageKindV {
        match self {
            MessageKind::Required => MessageKindV::Required,
            MessageKind::StartWith(s) => MessageKindV::StartWith(s@),
            MessageKind::Email => MessageKindV::Email,
            MessageKind::Fallback(s) => MessageKindV::Fallback(s@),
        }
    }
}

/// A failure payload produced by a rule: a kind and the text shown to the
/// user.  The text starts as the kind's default rendering and may later be
/// replaced by a configured override.
#[derive(Debug, Clone, PartialEq, Eq)]
pub struct Message {
    pub kind: MessageKind,
    pub content: String,
}

impl View for Message {
    type V = MessageV;

    open spec fn view(&self) -> MessageV {
        MessageV { kind: self.kind@, content: self.content@ }
    }
}

/// Default text of the `Required` kind.
pub open spec fn required_text() -> Seq<char> {
    "this field is required"@
}

/// Default text of the `StartWith` kind for prefix `p`.
pub open spec fn start_with_text(p: Seq<char>) -> Seq<char> {
    "this field must be start with `"@ + p + "`"@
}

/// Default text of the `Email` kind.
pub open spec fn email_text() -> Seq<char> {
    "this field must be a email address"@
}

impl Message {
    /// The kind of failure this message reports.
    pub fn kind(&self) -> (r: &MessageKind)
        ensures
            r@ == self@.kind,
    {
        &self.kind
    }

    /// The text of the message, as shown to the user.
    pub fn text(&self) -> (r: &String)
        ensures
            r@ == self@.content,
    {
        &self.content
    }

    /// A free-form message carrying the given text.
    pub fn fallback(text: &str) -> (r: Message)
        ensures
            r@ == (MessageV { kind: MessageKindV::Fallback(text@), content: text@ }),
    {
        Message { kind: MessageKind::Fallback(text.to_owned()), content: text.to_owned() }
    }

    /// A `Required` message with its default text.
    pub fn required() -> (r: Message)
        ensures
            r@ == (MessageV { kind: MessageKindV::Required, content: required_text() }),
    {
        Message { kind: MessageKind::Required, content: "this field is required".to_owned() }
    }

    /// A `StartWith` message for the given prefix, with its default text.
    pub fn start_with(prefix: &str) -> (r: Message)
        ensures
            r@ == (MessageV {
                kind: MessageKindV::StartWith(prefix@),
                content: start_with_text(prefix@),
            }),
    {
        let mut content = String::new();
        content.append("this field must be start with `");
        content.append(prefix);
        content.append("`");
        Message { kind: MessageKind::StartWith(prefix.to_owned()), content }
    }

    /// An `Email` message with its default text.
    pub fn email() -> (r: Message)
        ensures
            r@ == (MessageV { kind: MessageKindV::Email, content: email_text() }),
    {
        Message { kind: MessageKind::Email, content: "this field must be a email address".to_owned() }
    }

    /// An identical copy of the message.
    pub fn duplicate(&self) -> (r: Message)
        ensures
            r@ == self@,
    {
        let kind = match &self.kind {
            MessageKind::Required => MessageKind::Required,
            MessageKind::StartWith(s) => MessageKind::StartWith(s.clone()),
            MessageKind::Email => MessageKind::Email,
            MessageKind::Fallback(s) => MessageKind::Fallback(s.clone()),
        };
        Message { kind, content: self.content.clone() }
    }

    /// The same message with its text replaced, as configured overrides do.
    pub fn with_text(&self, text: &str) -> (r: Message)
        ensures
            r@ == (MessageV { kind: self@.kind, content: text@ }),
    {
        let kind = match &self.kind {
            MessageKind::Required => MessageKind::Required,
            MessageKind::StartWith(s) => MessageKind::StartWith(s.clone()),
            MessageKind::Email => MessageKind::Email,
            MessageKind::Fallback(s) => MessageKind::Fallback(s.clone()),
        };
        Message { kind, content: text.to_owned() }
    }
}

} // verus!
