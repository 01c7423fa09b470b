//! A modal dialog: a title, a text, what closing it sends, and a row of
//! options, each with what pressing it sends.

use vstd::prelude::*;

verus! {

/// How an option of a dialog is shown.
#[derive(Debug, Clone, Copy, PartialEq, Eq, Structural)]
pub enum Severity {
    Success,
    Neutral,
    Warn,
    Destructive,
}

/// An option of a dialog: how it is shown, its label, and the message that
/// pressing it sends.
#[derive(Debug)]
pub struct DialogOption<Message> {
    severity: Severity,
    text: String,
    on_press: Message,
}

impl<Message> DialogOption<Message> {
    pub fn new(severity: Severity, text: String, on_press: Message) -> (res: Self)
        ensures
            res.spec_severity() == severity,
            res.spec_text() == text@,
            res.spec_on_press() == on_press,
    {
        DialogOption { severity, text, on_press }
    }

    pub closed spec fn spec_severity(&self) -> Severity {
        self.severity
    }

    pub closed spec fn spec_text(&self) -> Seq<char> {
        self.text@
    }

    pub closed spec fn spec_on_press(&self) -> Message {
        self.on_press
    }

    pub fn severity(&self) -> (res: Severity)
        ensures
            res == self.spec_severity(),
    {
        self.severity
    }

    pub fn text(&self) -> (res: &str)
        ensures
            res@ == self.spec_text(),
    {
        self.text.as_str()
    }

    pub fn on_press(&self) -> (res: &Message)
        ensures
            *res == self.spec_on_press(),
    {
        &self.on_press
    }
}

/// A modal dialog.
#[derive(Debug)]
pub struct Dialog<Message> {
    title: String,
    body_text: String,
    on_cancel: Message,
    options: Vec<DialogOption<Message>>,
}

impl<Message> Dialog<Message> {
    pub fn new(
        title: String,
        body: String,
        on_cancel: Message,
        options: Vec<DialogOption<Message>>,
    ) -> (res: Self)
        ensures
            res.spec_title() == title@,
            res.spec_body_text() == body@,
            res.spec_on_cancel() == on_cancel,
            res.spec_options() == options@,
    {
        Dialog { title, body_text: body, on_cancel, options }
    }

    pub closed spec fn spec_title(&self) -> Seq<char> {
        self.title@
    }

    pub closed spec fn spec_body_text(&self) -> Seq<char> {
        self.body_text@
    }

    pub closed spec fn spec_on_cancel(&self) -> Message {
        self.on_cancel
    }

    pub closed spec fn spec_options(&self) -> Seq<DialogOption<Message>> {
        self.options@
    }

    pub fn title(&self) -> (res: &str)
        ensures
            res@ == self.spec_title(),
    {
        self.title.as_str()
    }

    pub fn body_text(&self) -> (res: &str)
        ensures
            res@ == self.spec_body_text(),
    {
        self.body_text.as_str()
    }

    pub fn on_cancel(&self) -> (res: &Message)
        ensures
            *res == self.spec_on_cancel(),
    {
        &self.on_cancel
    }

    pub fn options(&self) -> (res: &[DialogOption<Message>])
        ensures
            res@ == self.spec_options(),
    {
        self.options.as_slice()
    }
}

} // verus!
