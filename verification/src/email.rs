//! Email addresses as they are accepted from forms, and the messages that
//! the service sends.

use vstd::prelude::*;
use vstd::std_specs::iter::IteratorSpec;
use vstd::string::StringExecFns;
use crate::util::{Ctx, str_eq};

verus! {

/// Why a text was refused as an email address.
#[derive(Clone, Copy, Debug, PartialEq, Eq, Structural)]
pub enum EmailError {
    /// The text does not hold exactly one `@`.
    NotOneAt,
    /// Nothing stands before the `@`.
    EmptyUser,
    /// No `.` stands behind the `@`.
    NoDotInDomain,
}

/// `s` holds an `@` at position `i` and nowhere else.
pub open spec fn only_at(s: Seq<char>, i: int) -> bool {
    &&& 0 <= i < s.len()
    &&& s[i] == '@'
    &&& forall|j: int| 0 <= j < s.len() && j != i ==> s[j] != '@'
}

/// Some `.` stands behind position `i`.
pub open spec fn dot_after(s: Seq<char>, i: int) -> bool {
    exists|k: int| i < k < s.len() && s[k] == '.'
}

/// What is wrong with `s` as an email address, if anything. An address is a
/// user part that is not empty, one `@`, and a domain part that holds a `.`.
pub open spec fn email_fault(s: Seq<char>) -> Option<EmailError> {
    if !exists|i: int| only_at(s, i) {
        Some(EmailError::NotOneAt)
    } else {
        let at = choose|i: int| only_at(s, i);
        if at == 0 {
            Some(EmailError::EmptyUser)
        } else if !dot_after(s, at) {
            Some(EmailError::NoDotInDomain)
        } else {
            None
        }
    }
}

/// Whether `s` is accepted as an email address.
pub open spec fn valid_email(s: Seq<char>) -> bool {
    email_fault(s) is None
}

/// The number of `@` in `s`.
spec fn ats(s: Seq<char>) -> nat
    decreases s.len(),
{
    if s.len() == 0 {
        0
    } else {
        ats(s.drop_last()) + if s.last() == '@' {
            1nat
        } else {
            0nat
        }
    }
}

/// A text without `@` counts none.
proof fn lemma_ats_none(s: Seq<char>)
    ensures
        ats(s) == 0 <==> forall|j: int| 0 <= j < s.len() ==> s[j] != '@',
    decreases s.len(),
{
    if s.len() > 0 {
        lemma_ats_none(s.drop_last());
        if ats(s) == 0 {
            assert forall|j: int| 0 <= j < s.len() implies s[j] != '@' by {
                if j < s.len() - 1 {
                    assert(s.drop_last()[j] == s[j]);
                }
            }
        } else if s.last() != '@' {
            let j = choose|j: int| 0 <= j < s.drop_last().len() && s.drop_last()[j] == '@';
            assert(s[j] == '@');
        }
    }
}

/// A text counts one `@` exactly if it holds an `@` at one position only.
proof fn lemma_ats_one(s: Seq<char>)
    ensures
        ats(s) == 1 <==> exists|i: int| only_at(s, i),
    decreases s.len(),
{
    if s.len() > 0 {
        let front = s.drop_last();
        lemma_ats_one(front);
        lemma_ats_none(front);
        if s.last() == '@' {
            if ats(front) == 0 {
                assert(only_at(s, s.len() - 1)) by {
                    assert forall|j: int| 0 <= j < s.len() && j != s.len() - 1 implies s[j]
                        != '@' by {
                        assert(front[j] == s[j]);
                    }
                }
            } else {
                let k = choose|k: int| 0 <= k < front.len() && front[k] == '@';
                assert(s[k] == '@');
                assert forall|i: int| !only_at(s, i) by {
                    if only_at(s, i) {
                        if i == k {
                            assert(s[s.len() - 1] != '@');
                        } else {
                            assert(s[k] != '@');
                        }
                    }
                }
            }
        } else {
            if exists|i: int| only_at(front, i) {
                let i = choose|i: int| only_at(front, i);
                assert(only_at(s, i)) by {
                    assert(front[i] == s[i]);
                    assert forall|j: int| 0 <= j < s.len() && j != i implies s[j] != '@' by {
                        if j < s.len() - 1 {
                            assert(front[j] == s[j]);
                        }
                    }
                }
            }
            if exists|i: int| only_at(s, i) {
                let i = choose|i: int| only_at(s, i);
                assert(only_at(front, i)) by {
                    assert(front[i] == s[i]);
                    assert forall|j: int| 0 <= j < front.len() && j != i implies front[j]
                        != '@' by {
                        assert(front[j] == s[j]);
                    }
                }
            }
        }
    } else {
        assert forall|i: int| !only_at(s, i) by {}
    }
}

/// An email address: a text that was accepted as one.
#[derive(Debug, PartialEq, Eq)]
pub struct EmailAddress(String);

impl View for EmailAddress {
    type V = Seq<char>;

    closed spec fn view(&self) -> Seq<char> {
        self.0@
    }
}

impl Clone for EmailAddress {
    fn clone(&self) -> (r: Self)
        ensures
            r@ == self@,
    {
        proof {
            use_type_invariant(self);
        }
        EmailAddress(self.0.clone())
    }
}

impl EmailAddress {
    #[verifier::type_invariant]
    spec fn accepted(self) -> bool {
        valid_email(self.0@)
    }

    /// Accepts `s` as an email address, or says what is wrong with it.
    pub fn new(s: String) -> (r: Result<EmailAddress, EmailError>)
        ensures
            match r {
                Ok(e) => email_fault(s@) is None && e@ == s@,
                Err(fault) => email_fault(s@) == Some(fault),
            },
    {
        let chars = s.as_str().chars();
        // how many `@` so far, counted up to two
        let mut seen: u8 = 0;
        let mut first_is_at = false;
        let mut dot_in_domain = false;
        let mut first = true;
        let ghost mut at: int = 0;
        for c in it: chars
            invariant
                it.seq() == s@,
                first == (it.index() == 0),
                seen <= 2,
                seen == 0 ==> ats(s@.take(it.index())) == 0,
                seen == 1 ==> ats(s@.take(it.index())) == 1,
                seen == 2 ==> ats(s@.take(it.index())) >= 2,
                seen == 1 ==> 0 <= at < it.index() && s@[at] == '@',
                seen == 1 ==> first_is_at == (at == 0),
                seen == 1 ==> dot_in_domain == dot_after(s@.take(it.index()), at),
        {
            proof {
                let i = it.index();
                assert(s@.take(i + 1).drop_last() =~= s@.take(i));
                assert(s@.take(i + 1).last() == c);
                if seen == 1 {
                    let short = s@.take(i);
                    let long = s@.take(i + 1);
                    if dot_after(short, at) {
                        let k = choose|k: int| at < k < short.len() && short[k] == '.';
                        assert(long[k] == '.');
                    }
                    if dot_after(long, at) {
                        let k = choose|k: int| at < k < long.len() && long[k] == '.';
                        if k < i {
                            assert(short[k] == '.');
                        }
                    }
                    if c == '.' {
                        assert(long[i] == '.');
                    }
                }
            }
            if c == '@' {
                if seen == 0 {
                    seen = 1;
                    first_is_at = first;
                    dot_in_domain = false;
                    proof {
                        at = it.index();
                        assert(!dot_after(s@.take(at + 1), at));
                    }
                } else {
                    seen = 2;
                }
            } else if c == '.' && seen == 1 {
                dot_in_domain = true;
            }
            first = false;
        }
        proof {
            assert(s@.take(s@.len() as int) =~= s@);
            lemma_ats_one(s@);
            if seen == 1 {
                let only = choose|i: int| only_at(s@, i);
                assert(only == at) by {
                    if only != at {
                        assert(s@[at] != '@');
                    }
                }
            }
        }
        if seen != 1 {
            return Err(EmailError::NotOneAt);
        }
        if first_is_at {
            return Err(EmailError::EmptyUser);
        }
        if !dot_in_domain {
            return Err(EmailError::NoDotInDomain);
        }
        Ok(EmailAddress(s))
    }

    /// The address as text. It is a valid address, as every `EmailAddress` is.
    pub fn as_str(&self) -> (r: &str)
        ensures
            r@ == self@,
            valid_email(self@),
    {
        proof {
            use_type_invariant(self);
        }
        self.0.as_str()
    }

    /// The address as an owned text.
    pub fn into_string(self) -> (r: String)
        ensures
            r@ == self@,
    {
        self.0
    }
}

impl EmailError {
    /// What is wrong, in words.
    pub fn message(&self) -> (r: &'static str)
        ensures
            r@ == match self {
                EmailError::NotOneAt => "invalid credit card number"@,
                EmailError::EmptyUser => "User part is empty"@,
                EmailError::NoDotInDomain => "Domain part must contain ."@,
            },
    {
        match self {
            EmailError::NotOneAt => "invalid credit card number",
            EmailError::EmptyUser => "User part is empty",
            EmailError::NoDotInDomain => "Domain part must contain .",
        }
    }
}

/// Whether the mail library accepts `text` as the address of a recipient.
pub uninterp spec fn mailbox_accepted(text: Seq<char>) -> bool;

/// Tells whether `to` can be the address of a recipient.
///
/// Wraps the `FromStr` implementation of `lettre::Address`, which checks the
/// part before the last `@` as a user and the part after it as a domain or an
/// IP address. Whether it accepts a text depends on the text alone.
#[verifier::external_body]
fn address_accepted(to: &str) -> (ok: bool)
    ensures
        ok == mailbox_accepted(to@),
{
    to.parse::<lettre::Address>().is_ok()
}

/// A message that is ready to be handed to the mail transport.
#[derive(Debug, PartialEq, Eq)]
pub struct Message {
    /// The name that the message shows as its sender.
    pub from_name: String,
    /// The address that the message is sent from.
    pub from_address: String,
    /// The address of the recipient.
    pub to: String,
    pub subject: String,
    pub body: String,
}

/// How a message is handed over.
#[derive(Debug, PartialEq, Eq)]
pub enum Transport {
    /// Without encryption, to port 25 of this machine.
    UnencryptedLocalhost,
    /// With STARTTLS, to the given port of the given host.
    StartTlsRelay { host: String, port: u16 },
}

impl Transport {
    /// Whether this is the way to hand mail to `host`: without encryption
    /// where the host is this machine, by its name `localhost`, and with
    /// STARTTLS otherwise; to port 25 in both cases.
    pub open spec fn serves(self, host: Seq<char>) -> bool {
        match self {
            Transport::UnencryptedLocalhost => host == "localhost"@,
            Transport::StartTlsRelay { host: relay, port } => host != "localhost"@ && relay@
                == host && port == SMTP_PORT,
        }
    }
}

/// The port that mail is handed to.
pub const SMTP_PORT: u16 = 25;

/// A message and the way to hand it over.
#[derive(Debug, PartialEq, Eq)]
pub struct Outgoing {
    pub message: Message,
    pub transport: Transport,
}

/// Why no message could be made.
#[derive(Clone, Copy, Debug, PartialEq, Eq, Structural)]
pub enum MailError {
    /// The text does not have a first and a second line before its body.
    MissingLines,
    /// The recipient's address is not accepted.
    BadRecipient,
}

/// `text` holds at least two line breaks.
pub open spec fn has_two_breaks(text: Seq<char>) -> bool {
    exists|i: int, j: int| 0 <= i < j < text.len() && text[i] == '\n' && text[j] == '\n'
}

/// `text` is the line `first`, the line `second` and then `rest`.
pub open spec fn splits_as(
    text: Seq<char>,
    first: Seq<char>,
    second: Seq<char>,
    rest: Seq<char>,
) -> bool {
    &&& text == first + seq!['\n'] + second + seq!['\n'] + rest
    &&& forall|k: int| 0 <= k < first.len() ==> first[k] != '\n'
    &&& forall|k: int| 0 <= k < second.len() ==> second[k] != '\n'
}

/// The positions of the first and of the second line break of `text`, where
/// it has two.
fn two_breaks(text: &str) -> (r: Option<(usize, usize)>)
    ensures
        match r {
            Some((i, j)) => {
                &&& i < j < text@.len()
                &&& text@[i as int] == '\n'
                &&& text@[j as int] == '\n'
                &&& forall|k: int| 0 <= k < j && k != i ==> text@[k] != '\n'
            },
            None => !has_two_breaks(text@),
        },
{
    let n = text.unicode_len();
    let chars = text.chars();
    let mut first: Option<usize> = None;
    let mut second: Option<usize> = None;
    let mut idx: usize = 0;
    for c in it: chars
        invariant
            it.seq() == text@,
            n == text@.len(),
            idx == it.index(),
            match first {
                None => second is None && forall|k: int| 0 <= k < idx ==> text@[k] != '\n',
                Some(i) => i < idx && text@[i as int] == '\n' && forall|k: int|
                    0 <= k < i ==> text@[k] != '\n',
            },
            match (first, second) {
                (Some(i), None) => forall|k: int| i < k < idx ==> text@[k] != '\n',
                (Some(i), Some(j)) => i < j < idx && text@[j as int] == '\n' && forall|k: int|
                    i < k < j ==> text@[k] != '\n',
                _ => true,
            },
    {
        if c == '\n' {
            if first.is_none() {
                first = Some(idx);
            } else if second.is_none() {
                second = Some(idx);
            }
        }
        idx += 1;
    }
    match (first, second) {
        (Some(i), Some(j)) => Some((i, j)),
        _ => None,
    }
}

impl<'r> Ctx<'r> {
    /// Builds an email from the text that a template gave for it, to be sent
    /// to `to`. The first line of the text is the name of the sender, the
    /// second the subject, and the rest the body. The sender's address and
    /// the host that takes the message are those of the configuration.
    pub fn email(&self, email_text: &str, to: &str) -> (r: Result<Outgoing, MailError>)
        ensures
            match r {
                Ok(out) => {
                    &&& splits_as(
                        email_text@,
                        out.message.from_name@,
                        out.message.subject@,
                        out.message.body@,
                    )
                    &&& mailbox_accepted(to@)
                    &&& out.message.to@ == to@
                    &&& out.message.from_address@ == self.0.ui.email_from@
                    &&& out.transport.serves(self.0.secrets.smtp_host_text())
                },
                Err(MailError::MissingLines) => !has_two_breaks(email_text@),
                Err(MailError::BadRecipient) => has_two_breaks(email_text@) && !mailbox_accepted(
                    to@,
                ),
            },
    {
        let config = self.config();
        let (i, j) = match two_breaks(email_text) {
            Some(found) => found,
            None => {
                return Err(MailError::MissingLines);
            },
        };
        let n = email_text.unicode_len();
        let from_name = email_text.substring_char(0, i).to_owned();
        let subject = email_text.substring_char(i + 1, j).to_owned();
        let body = email_text.substring_char(j + 1, n).to_owned();
        proof {
            assert(email_text@ =~= from_name@ + seq!['\n'] + subject@ + seq!['\n'] + body@);
        }
        // Build email
        if !address_accepted(to) {
            return Err(MailError::BadRecipient);
        }
        let message = Message {
            from_name,
            from_address: config.ui.email_from.clone(),
            to: to.to_owned(),
            subject,
            body,
        };
        // Choose how to send it
        let smtp_host = config.secrets.get_smtp_host();
        let transport = if str_eq(smtp_host, "localhost") {
            Transport::UnencryptedLocalhost  // always port 25
        } else {
            Transport::StartTlsRelay { host: smtp_host.to_owned(), port: SMTP_PORT }
        };
        Ok(Outgoing { message, transport })
    }
}

/// What the answer of the mail transport means: a positive answer is a
/// success; any other is a failure that quotes the first line of the answer.
pub fn delivery(positive: bool, first_line: Option<&str>) -> (r: Result<(), String>)
    ensures
        match r {
            Ok(_) => positive,
            Err(why) => !positive && why@ == "sending email failed:\n"@ + match first_line {
                Some(line) => line@,
                None => "<no message>"@,
            },
        },
{
    if positive {
        return Ok(());
    }
    let mut why = "sending email failed:\n".to_owned();
    match first_line {
        Some(line) => why.append(line),
        None => why.append("<no message>"),
    }
    Err(why)
}

} // verus!
