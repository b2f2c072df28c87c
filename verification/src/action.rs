//! Requests to subscribe and unsubscribe: how they are written down, signed,
//! checked and applied.
//!
//! A signed action carries no state on the server: its tag, made with a secret
//! key over the canonical bytes of the action, is all that authorizes it.

use vstd::prelude::*;
use vstd::utf8::encode_utf8;
use crate::email::{EmailAddress, valid_email};
use crate::hmac::{Key, TAG_LEN, hmac_sha256};
use crate::models::{Monitor, MonitorView};
use crate::store::MonitorTable;
use crate::wire::{MAX_LEN, blob_bytes, str_header, text_bytes, uint_bytes};
use crate::wire::{parse_blob, parse_text, parse_uint};
use crate::wire::{get_blob, get_text, get_uint, put_blob, put_text, put_uint, text_fits};
use crate::wire::{lemma_blob_complete, lemma_blob_sound, lemma_text_complete, lemma_text_sound};
use crate::wire::{lemma_uint_complete, lemma_uint_sound};

verus! {

/// What an action does to a subscription.
#[derive(Clone, Copy, Debug, PartialEq, Eq, Structural)]
pub enum Operation {
    Add,
    Remove,
}

impl Operation {
    /// The number that stands for the operation wherever it is written down.
    pub open spec fn code(self) -> u8 {
        match self {
            Operation::Add => 1u8,
            Operation::Remove => 0u8,
        }
    }

    /// The number that stands for the operation.
    pub fn to_code(self) -> (c: u8)
        ensures
            c == self.code(),
    {
        match self {
            Operation::Add => 1u8,
            Operation::Remove => 0u8,
        }
    }

    /// The operation that `c` stands for, if it stands for one.
    pub fn from_code(c: u8) -> (r: Option<Operation>)
        ensures
            match r {
                Some(op) => op.code() == c,
                None => c != Operation::Add.code() && c != Operation::Remove.code(),
            },
    {
        if c == 1 {
            Some(Operation::Add)
        } else if c == 0 {
            Some(Operation::Remove)
        } else {
            None
        }
    }
}

/// A request to subscribe `email` to the node `node`, or to end that subscription.
#[derive(Debug, PartialEq, Eq)]
pub struct Action {
    pub node: String,
    pub email: EmailAddress,
    pub op: Operation,
}

/// Mathematical value of an [`Action`].
pub struct ActionView {
    pub node: Seq<char>,
    pub email: Seq<char>,
    pub op: Operation,
}

impl View for Action {
    type V = ActionView;

    open spec fn view(&self) -> ActionView {
        ActionView { node: self.node@, email: self.email@, op: self.op }
    }
}

impl Clone for Action {
    fn clone(&self) -> (r: Self)
        ensures
            r@ == self@,
    {
        Action { node: self.node.clone(), email: self.email.clone(), op: self.op }
    }
}

impl ActionView {
    /// Both texts are short enough to be written down.
    pub open spec fn fits(self) -> bool {
        encode_utf8(self.node).len() <= MAX_LEN && encode_utf8(self.email).len() <= MAX_LEN
    }

    /// The action can be written down, and its address is a valid one.
    pub open spec fn wf(self) -> bool {
        self.fits() && valid_email(self.email)
    }

    /// The pair of node and address that the action is about.
    pub open spec fn monitor(self) -> MonitorView {
        MonitorView { id: self.node, email: self.email }
    }

    /// The canonical bytes of the action, over which it is signed: an array
    /// of the node's id, the address and the operation's number, in this order.
    pub open spec fn bytes(self) -> Seq<u8> {
        seq![0x93u8] + text_bytes(self.node) + text_bytes(self.email) + uint_bytes(self.op.code())
    }

    /// The tag that authenticates the action under `key`.
    pub open spec fn signature(self, key: Seq<u8>) -> Seq<u8> {
        hmac_sha256(key, self.bytes())
    }

    /// The action together with its tag under `key`.
    pub open spec fn sign(self, key: Seq<u8>) -> SignedView {
        SignedView { action: self, signature: self.signature(key) }
    }
}

/// Why a signed action was refused. It says nothing of the reason, so that a
/// forger learns nothing from it.
#[derive(Clone, Copy, Debug, PartialEq, Eq, Structural)]
pub struct AuthError;

/// An action together with the tag that authenticates it.
pub struct SignedAction {
    action: Action,
    signature: Vec<u8>,
}

/// Mathematical value of a [`SignedAction`].
pub struct SignedView {
    pub action: ActionView,
    pub signature: Seq<u8>,
}

impl View for SignedAction {
    type V = SignedView;

    closed spec fn view(&self) -> SignedView {
        SignedView { action: self.action@, signature: self.signature@ }
    }
}

impl SignedView {
    /// The signed action can be written down, and its address is a valid one.
    pub open spec fn wf(self) -> bool {
        self.action.wf() && self.signature.len() <= MAX_LEN
    }

    /// The canonical bytes of the signed action: an array of the action and
    /// of its tag, the tag as an array of small numbers.
    pub open spec fn bytes(self) -> Seq<u8> {
        seq![0x92u8] + self.action.bytes() + blob_bytes(self.signature)
    }

    /// The action, where the tag is the one that `key` gives for it; a refusal
    /// otherwise.
    pub open spec fn verify(self, key: Seq<u8>) -> Result<ActionView, AuthError> {
        if self.signature == self.action.signature(key) {
            Ok(self.action)
        } else {
            Err(AuthError)
        }
    }
}

/// The view of what a verification returned.
pub open spec fn verified_view(r: Result<Action, AuthError>) -> Result<ActionView, AuthError> {
    match r {
        Ok(action) => Ok(action@),
        Err(e) => Err(e),
    }
}

/// Reads an action at the front of `b`: the action and the length of its bytes.
pub open spec fn parse_action(b: Seq<u8>) -> Option<(ActionView, int)> {
    if b.len() >= 1 && b[0] == 0x93 {
        match parse_text(b.skip(1)) {
            Some((node, k1)) => match parse_text(b.skip(1 + k1)) {
                Some((email, k2)) => match parse_uint(b.skip(1 + k1 + k2)) {
                    Some((code, k3)) => if code == Operation::Add.code() {
                        Some((ActionView { node, email, op: Operation::Add }, 1 + k1 + k2 + k3))
                    } else if code == Operation::Remove.code() {
                        Some((ActionView { node, email, op: Operation::Remove }, 1 + k1 + k2 + k3))
                    } else {
                        None
                    },
                    None => None,
                },
                None => None,
            },
            None => None,
        }
    } else {
        None
    }
}

/// Reads a signed action from `b`, all of it.
pub open spec fn parse_signed(b: Seq<u8>) -> Option<SignedView> {
    if b.len() >= 1 && b[0] == 0x92 {
        match parse_action(b.skip(1)) {
            Some((action, k1)) => match parse_blob(b.skip(1 + k1)) {
                Some((signature, k2)) => if 1 + k1 + k2 == b.len() {
                    Some(SignedView { action, signature })
                } else {
                    None
                },
                None => None,
            },
            None => None,
        }
    } else {
        None
    }
}

/// What was read is what the bytes of that action look like.
pub proof fn lemma_action_sound(b: Seq<u8>)
    ensures
        parse_action(b) matches Some((a, k)) ==> 0 < k <= b.len() && a.fits() && b.take(k)
            == a.bytes(),
{
    if let Some((a, k)) = parse_action(b) {
        let (node, k1) = parse_text(b.skip(1))->0;
        let (email, k2) = parse_text(b.skip(1 + k1))->0;
        let (code, k3) = parse_uint(b.skip(1 + k1 + k2))->0;
        lemma_text_sound(b.skip(1));
        lemma_text_sound(b.skip(1 + k1));
        lemma_uint_sound(b.skip(1 + k1 + k2));
        assert(b.take(k) =~= seq![0x93u8] + b.skip(1).take(k1) + b.skip(1 + k1).take(k2) + b.skip(
            1 + k1 + k2,
        ).take(k3));
    }
}

/// An action is read back, whatever follows it.
pub proof fn lemma_action_complete(a: ActionView, rest: Seq<u8>)
    requires
        a.fits(),
    ensures
        parse_action(a.bytes() + rest) == Some((a, a.bytes().len() as int)),
{
    let b = a.bytes() + rest;
    let node = text_bytes(a.node);
    let email = text_bytes(a.email);
    let op = uint_bytes(a.op.code());
    assert(b[0] == 0x93);
    assert(b.skip(1) =~= node + (email + op + rest));
    lemma_text_complete(a.node, email + op + rest);
    assert(b.skip(1 + node.len() as int) =~= email + (op + rest));
    lemma_text_complete(a.email, op + rest);
    assert(b.skip(1 + node.len() as int + email.len() as int) =~= op + rest);
    lemma_uint_complete(a.op.code(), rest);
}

/// What was read is what the bytes of that signed action look like.
pub proof fn lemma_signed_sound(b: Seq<u8>)
    ensures
        parse_signed(b) matches Some(t) ==> t.action.fits() && t.signature.len() <= MAX_LEN
            && b == t.bytes(),
{
    if let Some(t) = parse_signed(b) {
        let (action, k1) = parse_action(b.skip(1))->0;
        let (signature, k2) = parse_blob(b.skip(1 + k1))->0;
        lemma_action_sound(b.skip(1));
        lemma_blob_sound(b.skip(1 + k1));
        assert(b =~= seq![0x92u8] + b.skip(1).take(k1) + b.skip(1 + k1).take(k2));
    }
}

/// A signed action is read back from its bytes.
pub proof fn lemma_signed_complete(t: SignedView)
    requires
        t.action.fits(),
        t.signature.len() <= MAX_LEN,
    ensures
        parse_signed(t.bytes()) == Some(t),
{
    let b = t.bytes();
    let action = t.action.bytes();
    let signature = blob_bytes(t.signature);
    assert(b[0] == 0x92);
    assert(b.skip(1) =~= action + signature);
    lemma_action_complete(t.action, signature);
    assert(b.skip(1 + action.len() as int) =~= signature + Seq::<u8>::empty());
    lemma_blob_complete(t.signature, Seq::<u8>::empty());
}

/// Two actions with the same canonical bytes are the same action: whatever
/// is changed in an action changes the bytes that its tag authenticates.
pub proof fn lemma_bytes_tell_actions_apart(a: ActionView, b: ActionView)
    requires
        a.fits(),
        b.fits(),
        a.bytes() == b.bytes(),
    ensures
        a == b,
{
    lemma_action_complete(a, Seq::<u8>::empty());
    lemma_action_complete(b, Seq::<u8>::empty());
}

/// Bytes that differ from the canonical bytes of a signed action never read
/// back as that signed action: a token that was changed in any bit either
/// reads as nothing at all or as another action or another tag.
pub proof fn lemma_changed_bytes_read_differently(t: SignedView, changed: Seq<u8>)
    requires
        changed != t.bytes(),
    ensures
        parse_signed(changed) != Some(t),
{
    lemma_signed_sound(changed);
}

/// A signed action is accepted under the key it was signed with, and what
/// comes back is the action that was signed.
pub proof fn lemma_verify_accepts_own_signature(a: ActionView, key: Seq<u8>)
    ensures
        a.sign(key).verify(key) == Ok::<ActionView, AuthError>(a),
{
}

/// An action signed under one key is refused under another, unless the two
/// keys give the action the same tag.
pub proof fn lemma_verify_refuses_other_key(a: ActionView, key: Seq<u8>, other: Seq<u8>)
    ensures
        a.sign(key).verify(other) is Err <==> a.signature(key) != a.signature(other),
        a.signature(key) != a.signature(other) ==> key != other,
{
}

/// A tag does not pass for another action: a signed action whose payload was
/// replaced is refused, unless the key gives both payloads the same tag.
pub proof fn lemma_verify_refuses_other_payload(a: ActionView, forged: ActionView, key: Seq<u8>)
    requires
        a.fits(),
        forged.fits(),
        forged != a,
    ensures
        forged.bytes() != a.bytes(),
        (SignedView { action: forged, signature: a.signature(key) }).verify(key) is Err
            <==> hmac_sha256(key, forged.bytes()) != hmac_sha256(key, a.bytes()),
{
    if forged.bytes() == a.bytes() {
        lemma_bytes_tell_actions_apart(a, forged);
    }
}

/// The bytes of an action that fits are far fewer than a tag can be computed over.
proof fn lemma_bytes_len(a: ActionView)
    requires
        a.fits(),
    ensures
        a.bytes().len() <= 2 * MAX_LEN + 13,
{
    assert(str_header(encode_utf8(a.node).len()).len() <= 5);
    assert(str_header(encode_utf8(a.email).len()).len() <= 5);
}

impl Action {
    /// Whether both texts are short enough for the action to be written down.
    pub fn fits(&self) -> (r: bool)
        ensures
            r == self@.fits(),
    {
        text_fits(self.node.as_str()) && text_fits(self.email.as_str())
    }

    /// The canonical bytes of the action.
    pub fn to_bytes(&self) -> (buf: Vec<u8>)
        requires
            self@.fits(),
        ensures
            buf@ == self@.bytes(),
    {
        let mut buf: Vec<u8> = Vec::new();
        buf.push(0x93u8);
        put_text(&mut buf, self.node.as_str());
        put_text(&mut buf, self.email.as_str());
        put_uint(&mut buf, self.op.to_code());
        proof {
            assert(buf@ =~= self@.bytes());
        }
        buf
    }

    fn compute_signature(&self, key: &Key) -> (tag: Vec<u8>)
        requires
            self@.fits(),
        ensures
            tag@ == self@.signature(key@),
            tag@.len() == TAG_LEN,
    {
        let buf = self.to_bytes();
        proof {
            lemma_bytes_len(self@);
        }
        crate::hmac::sign(key, buf.as_slice())
    }

    fn verify_signature(&self, key: &Key, signature: &[u8]) -> (r: Result<(), AuthError>)
        requires
            self@.fits(),
        ensures
            r is Ok <==> signature@ == self@.signature(key@),
    {
        let buf = self.to_bytes();
        proof {
            lemma_bytes_len(self@);
        }
        if crate::hmac::verify(key, buf.as_slice(), signature) {
            Ok(())
        } else {
            Err(AuthError)
        }
    }

    /// Signs the action with `key`.
    pub fn sign(self, key: &Key) -> (signed: SignedAction)
        requires
            self@.fits(),
        ensures
            signed@ == self@.sign(key@),
            signed@.signature.len() == TAG_LEN,
    {
        let signature = self.compute_signature(key);
        SignedAction { action: self, signature }
    }

    /// Signs the action with `key`, if it can be written down: `None` says
    /// that its node id or its address is too long for that.
    pub fn try_sign(self, key: &Key) -> (r: Option<SignedAction>)
        ensures
            r is Some <==> self@.fits(),
            r matches Some(signed) ==> signed@ == self@.sign(key@) && signed@.signature.len()
                == TAG_LEN,
    {
        if self.fits() {
            Some(self.sign(key))
        } else {
            None
        }
    }

    /// Applies the action to the subscription table. Returns whether the
    /// table changed: adding a pair that is there, or removing one that is
    /// not, changes nothing and is no error.
    pub fn run(&self, db: &mut MonitorTable) -> (changed: bool)
        ensures
            (final(db)@, changed) == self@.run(old(db)@),
    {
        let m = Monitor { id: self.node.as_str(), email: self.email.as_str() };
        match self.op {
            Operation::Add => db.insert(&m),
            Operation::Remove => db.remove(&m),
        }
    }
}

impl ActionView {
    /// The subscription table after the action, and whether the action changed it.
    pub open spec fn run(self, table: Set<MonitorView>) -> (Set<MonitorView>, bool) {
        match self.op {
            Operation::Add => (table.insert(self.monitor()), !table.contains(self.monitor())),
            Operation::Remove => (table.remove(self.monitor()), table.contains(self.monitor())),
        }
    }
}

/// Applying an action a second time changes nothing. The first time, adding
/// changes the table exactly if the pair was not there, and removing exactly
/// if it was.
pub proof fn lemma_run_twice(a: ActionView, table: Set<MonitorView>)
    ensures
        ({
            let (once, first) = a.run(table);
            let (twice, second) = a.run(once);
            &&& !second
            &&& twice == once
            &&& a.op == Operation::Add ==> first == !table.contains(a.monitor())
            &&& a.op == Operation::Remove ==> first == table.contains(a.monitor())
        }),
{
    let (once, first) = a.run(table);
    let (twice, second) = a.run(once);
    assert(twice =~= once);
}

/// How the store answered the one statement that an action makes.
#[derive(Clone, Copy, Debug, PartialEq, Eq, Structural)]
pub enum StatementResult {
    /// The statement ran, and touched this many rows.
    Rows(usize),
    /// The store refused the statement because the row is there already.
    UniqueViolation,
    /// The store failed in another way.
    Failed,
}

/// The store failed in a way that an action does not account for.
#[derive(Clone, Copy, Debug, PartialEq, Eq, Structural)]
pub struct StoreFailure;

impl Operation {
    /// What the store's answer to the operation's statement means: whether a
    /// subscription was added or removed, or that the store failed. An insert
    /// that was refused because the pair is there already is no failure: it
    /// changed nothing. A delete changed something if it touched a row.
    pub open spec fn effect_of(self, answer: StatementResult) -> Result<bool, StoreFailure> {
        match (self, answer) {
            (Operation::Add, StatementResult::Rows(_)) => Ok(true),
            (Operation::Add, StatementResult::UniqueViolation) => Ok(false),
            (Operation::Remove, StatementResult::Rows(n)) => Ok(n > 0),
            _ => Err(StoreFailure),
        }
    }

    /// What the store's answer to the operation's statement means.
    pub fn effect(self, answer: StatementResult) -> (r: Result<bool, StoreFailure>)
        ensures
            r == self.effect_of(answer),
    {
        match self {
            Operation::Add => match answer {
                StatementResult::Rows(_) => Ok(true),
                StatementResult::UniqueViolation => Ok(false),
                StatementResult::Failed => Err(StoreFailure),
            },
            Operation::Remove => match answer {
                StatementResult::Rows(n) => Ok(n > 0),
                _ => Err(StoreFailure),
            },
        }
    }
}

/// Reads an action at `pos`: the action and the position behind it. The
/// address is not yet checked.
fn get_action(b: &[u8], pos: usize) -> (r: Option<(String, String, Operation, usize)>)
    requires
        pos <= b@.len(),
    ensures
        match r {
            Some((node, email, op, next)) => pos < next <= b@.len() && parse_action(
                b@.skip(pos as int),
            ) == Some((ActionView { node: node@, email: email@, op }, next - pos)),
            None => parse_action(b@.skip(pos as int)) is None,
        },
{
    let ghost rest = b@.skip(pos as int);
    if pos >= b.len() || b[pos] != 0x93 {
        return None;
    }
    proof {
        assert(rest.skip(1) =~= b@.skip(pos + 1));
    }
    let (node, at_email) = match get_text(b, pos + 1) {
        Some(found) => found,
        None => {
            return None;
        },
    };
    proof {
        assert(rest.skip(at_email - pos) =~= b@.skip(at_email as int));
    }
    let (email, at_op) = match get_text(b, at_email) {
        Some(found) => found,
        None => {
            return None;
        },
    };
    proof {
        assert(rest.skip(at_op - pos) =~= b@.skip(at_op as int));
    }
    let (code, next) = match get_uint(b, at_op) {
        Some(found) => found,
        None => {
            return None;
        },
    };
    match Operation::from_code(code) {
        Some(op) => Some((node, email, op, next)),
        None => None,
    }
}

impl SignedAction {
    #[verifier::type_invariant]
    spec fn writable(self) -> bool {
        self.action@.fits() && self.signature@.len() <= MAX_LEN
    }

    /// Checks the tag under `key`. Returns the action only if the tag is the
    /// one that `key` gives for it; otherwise nothing of the action is returned.
    pub fn verify(self, key: &Key) -> (r: Result<Action, AuthError>)
        ensures
            verified_view(r) == self@.verify(key@),
    {
        proof {
            use_type_invariant(&self);
        }
        // Using a match to make it really clear we don't return the action in case of failure
        match self.action.verify_signature(key, self.signature.as_slice()) {
            Ok(_) => Ok(self.action),
            Err(e) => Err(e),
        }
    }

    /// The canonical bytes of the signed action.
    pub fn to_bytes(&self) -> (buf: Vec<u8>)
        ensures
            buf@ == self@.bytes(),
            self@.action.fits(),
            self@.signature.len() <= MAX_LEN,
    {
        proof {
            use_type_invariant(self);
        }
        let mut buf: Vec<u8> = Vec::new();
        buf.push(0x92u8);
        let mut action = self.action.to_bytes();
        buf.append(&mut action);
        put_blob(&mut buf, self.signature.as_slice());
        proof {
            assert(buf@ =~= self@.bytes());
        }
        buf
    }

    /// Reads a signed action from its canonical bytes. `None` says that `b` is
    /// not the canonical form of any signed action with a valid address.
    pub fn from_bytes(b: &[u8]) -> (r: Option<SignedAction>)
        ensures
            match r {
                Some(signed) => signed@.wf() && signed@.bytes() == b@,
                None => forall|t: SignedView| t.wf() ==> t.bytes() != b@,
            },
    {
        proof {
            lemma_signed_sound(b@);
            assert forall|t: SignedView| t.wf() && t.bytes() == b@ implies parse_signed(b@)
                == Some(t) by {
                lemma_signed_complete(t);
            }
        }
        if b.len() < 1 || b[0] != 0x92 {
            return None;
        }
        let (node, email, op, at_tag) = match get_action(b, 1) {
            Some(found) => found,
            None => {
                return None;
            },
        };
        proof {
            assert(b@.skip(1).skip(at_tag - 1) =~= b@.skip(at_tag as int));
            assert(b@.skip(1 + (at_tag - 1)) =~= b@.skip(at_tag as int));
        }
        let (signature, end) = match get_blob(b, at_tag) {
            Some(found) => found,
            None => {
                return None;
            },
        };
        if end != b.len() {
            return None;
        }
        let email = match EmailAddress::new(email) {
            Ok(email) => email,
            Err(_) => {
                return None;
            },
        };
        Some(SignedAction { action: Action { node, email, op }, signature })
    }
}

} // verus!
